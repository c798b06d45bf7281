//! The rule loader: resolves the inclusion directives of a rule source,
//! depth-first and relative to each file's own directory, into one flat
//! ordered sequence of trimmed statement lines.
//!
//! The loader works over an in-memory set of files handed in by the
//! caller; a file that the set lacks is reported as `SourceNotFound`, and
//! the caller may read it and retry.  A file that reappears on the active
//! expansion path is reported as `IncludeCycle` instead of recursing
//! forever.

use vstd::prelude::*;

use crate::text::copy_chars;
use crate::text::copy_range;
use crate::text::append_chars;
use crate::text::find_char;
use crate::text::find_char_at;
use crate::text::lemma_find_char_bounds;
use crate::text::lines_view;
use crate::text::list_contains;
use crate::text::scan_nonspace;
use crate::text::scan_nonspace_at;
use crate::text::seq_eq;
use crate::text::starts_with;
use crate::text::strip_both;
use crate::text::strip_both_char;
use crate::text::token_end;
use crate::text::token_end_at;
use crate::text::trim;
use crate::text::trim_view;

verus! {

/// One file of the rule source: its path and its raw lines.
pub struct FileEntry {
    pub path: Vec<char>,
    pub lines: Vec<Vec<char>>,
}

/// The files available to a load pass, keyed by path.
pub struct FileSet {
    pub files: Vec<FileEntry>,
}

/// Why a load pass was aborted.
#[derive(Debug)]
pub enum LoadError {
    /// The named file is not in the file set.
    SourceNotFound { path: Vec<char> },
    /// An inclusion directive without a path argument.
    IncludeResolutionError { line: Vec<char> },
    /// The named file is already being expanded on the active path.
    IncludeCycle { path: Vec<char> },
}

/// The view of a `LoadError`, over character sequences.
pub enum LoadErrorView {
    SourceNotFound { path: Seq<char> },
    IncludeResolutionError { line: Seq<char> },
    IncludeCycle { path: Seq<char> },
}

impl View for LoadError {
    type V = LoadErrorView;

    open spec fn view(&self) -> LoadErrorView {
        match self {
            LoadError::SourceNotFound { path } => LoadErrorView::SourceNotFound { path: path@ },
            LoadError::IncludeResolutionError { line } => LoadErrorView::IncludeResolutionError {
                line: line@,
            },
            LoadError::IncludeCycle { path } => LoadErrorView::IncludeCycle { path: path@ },
        }
    }
}

/// The keyword that introduces a `"..."`-style inclusion directive.
pub open spec fn inclusion_kw() -> Seq<char> {
    seq!['#', 'i', 'n', 'c', 'l', 'u', 'd', 'e']
}

/// The alternative keyword for the same directive.
pub open spec fn import_kw() -> Seq<char> {
    seq!['#', 'i', 'm', 'p', 'o', 'r', 't']
}

/// The primary directive keyword as characters, for callers that need to
/// write rule sources.
pub fn inclusion_keyword() -> (r: Vec<char>)
    ensures
        r@ == inclusion_kw(),
{
    let mut r: Vec<char> = Vec::new();
    r.push('#');
    r.push('i');
    r.push('n');
    r.push('c');
    r.push('l');
    r.push('u');
    r.push('d');
    r.push('e');
    proof {
        assert(r@ =~= inclusion_kw());
    }
    r
}

/// The alternative directive keyword as characters.
pub fn import_keyword() -> (r: Vec<char>)
    ensures
        r@ == import_kw(),
{
    let mut r: Vec<char> = Vec::new();
    r.push('#');
    r.push('i');
    r.push('m');
    r.push('p');
    r.push('o');
    r.push('r');
    r.push('t');
    proof {
        assert(r@ =~= import_kw());
    }
    r
}

/// True when the trimmed line is an inclusion directive: it is led by
/// either directive keyword.
pub open spec fn is_directive(l: Seq<char>) -> bool {
    starts_with(l, inclusion_kw()) || starts_with(l, import_kw())
}

/// True when `p` is a prefix of `s`.
fn has_prefix_vec(s: &Vec<char>, p: &Vec<char>) -> (r: bool)
    ensures
        r == starts_with(s@, p@),
{
    let n: usize = p.len();
    if n > s.len() {
        return false;
    }
    let mut i: usize = 0;
    while i < n
        invariant
            n == p@.len(),
            n <= s@.len(),
            i <= n,
            forall|k: int| 0 <= k < i ==> s@[k] == p@[k],
        decreases n - i,
    {
        if s[i] != p[i] {
            proof {
                assert(s@.subrange(0, p@.len() as int)[i as int] != p@[i as int]);
            }
            return false;
        }
        i = i + 1;
    }
    proof {
        assert(s@.subrange(0, p@.len() as int) =~= p@);
    }
    true
}

/// True exactly when the trimmed line is an inclusion directive.
pub fn is_directive_line(l: &Vec<char>) -> (r: bool)
    ensures
        r == is_directive(l@),
{
    let kw1 = inclusion_keyword();
    if has_prefix_vec(l, &kw1) {
        return true;
    }
    let kw2 = import_keyword();
    has_prefix_vec(l, &kw2)
}

/// The path argument of a directive line: its second whitespace-delimited
/// token, empty when the line has no second token.
pub open spec fn directive_arg(l: Seq<char>) -> Seq<char> {
    l.subrange(
        scan_nonspace(l, token_end(l, 0)),
        token_end(l, scan_nonspace(l, token_end(l, 0))),
    )
}

/// The path argument of a directive line.
pub fn directive_arg_of(l: &Vec<char>) -> (r: Vec<char>)
    ensures
        r@ == directive_arg(l@),
{
    let e1 = token_end_at(l, 0);
    let s2 = scan_nonspace_at(l, e1);
    let e2 = token_end_at(l, s2);
    copy_range(l, s2, e2)
}

/// Index of the last `/` strictly before position `j`, or `-1`.
pub open spec fn last_slash(s: Seq<char>, j: int) -> int
    decreases j,
{
    if j <= 0 {
        -1
    } else if s[j - 1] == '/' {
        j - 1
    } else {
        last_slash(s, j - 1)
    }
}

/// The directory part of `p`: everything before its last `/`, the empty
/// sequence when `p` has none, and `/` when the last slash leads the path.
pub open spec fn dir_of(p: Seq<char>) -> Seq<char> {
    let k = last_slash(p, p.len() as int);
    if k < 0 {
        Seq::<char>::empty()
    } else if k == 0 {
        p.subrange(0, 1)
    } else {
        p.subrange(0, k)
    }
}

/// The directory part of `p`.
pub fn dir_of_path(p: &Vec<char>) -> (r: Vec<char>)
    ensures
        r@ == dir_of(p@),
{
    let n: usize = p.len();
    let mut j: usize = n;
    while j > 0 && p[j - 1] != '/'
        invariant
            n == p@.len(),
            j <= n,
            last_slash(p@, n as int) == last_slash(p@, j as int),
        decreases j,
    {
        j = j - 1;
    }
    if j == 0 {
        proof {
            assert(last_slash(p@, j as int) == -1);
        }
        Vec::new()
    } else if j == 1 {
        proof {
            assert(last_slash(p@, j as int) == 0);
        }
        copy_range(p, 0, 1)
    } else {
        proof {
            assert(last_slash(p@, j as int) == j - 1);
        }
        copy_range(p, 0, j - 1)
    }
}

/// `rel` joined to directory `dir`, not yet normalized: `rel` itself when
/// absolute or when `dir` is empty, else the two joined by `/`.
pub open spec fn joined_path(dir: Seq<char>, rel: Seq<char>) -> Seq<char> {
    if rel.len() > 0 && rel[0] == '/' {
        rel
    } else if dir.len() == 0 {
        rel
    } else if dir[dir.len() - 1] == '/' {
        dir + rel
    } else {
        dir + seq!['/'] + rel
    }
}

/// The `/`-separated segments of a path, empty segments dropped.
pub open spec fn path_segments(p: Seq<char>) -> Seq<Seq<char>>
    decreases p.len(),
    via path_segments_dec
{
    if p.len() == 0 {
        Seq::<Seq<char>>::empty()
    } else {
        let j = find_char(p, 0, '/');
        if j >= p.len() {
            seq![p]
        } else if j == 0 {
            path_segments(p.subrange(1, p.len() as int))
        } else {
            seq![p.subrange(0, j)] + path_segments(p.subrange(j + 1, p.len() as int))
        }
    }
}

#[via_fn]
proof fn path_segments_dec(p: Seq<char>) {
    if p.len() > 0 {
        lemma_find_char_bounds(p, 0, '/');
    }
}

/// The segment `.`.
pub open spec fn dot_seg() -> Seq<char> {
    seq!['.']
}

/// The segment `..`.
pub open spec fn dotdot_seg() -> Seq<char> {
    seq!['.', '.']
}

/// The lexical collapse of the segments from `i` on into `acc`: a `.` is
/// dropped, a `..` cancels the segment before it where one is there to
/// cancel (above the root of an absolute path it is dropped, at the front
/// of a relative path it is kept), and any other segment is appended.
pub open spec fn collapse_from(
    segs: Seq<Seq<char>>,
    i: int,
    acc: Seq<Seq<char>>,
    absolute: bool,
) -> Seq<Seq<char>>
    decreases segs.len() - i,
{
    if i < 0 || i >= segs.len() {
        acc
    } else {
        let s = segs[i];
        if s == dot_seg() {
            collapse_from(segs, i + 1, acc, absolute)
        } else if s == dotdot_seg() {
            if acc.len() > 0 && acc.last() != dotdot_seg() {
                collapse_from(segs, i + 1, acc.drop_last(), absolute)
            } else if absolute {
                collapse_from(segs, i + 1, acc, absolute)
            } else {
                collapse_from(segs, i + 1, acc.push(s), absolute)
            }
        } else {
            collapse_from(segs, i + 1, acc.push(s), absolute)
        }
    }
}

/// The first `i` segments joined by `/`.
pub open spec fn join_slash(segs: Seq<Seq<char>>, i: int) -> Seq<char>
    decreases i,
{
    if i <= 0 {
        Seq::<char>::empty()
    } else if i == 1 {
        segs[0]
    } else {
        join_slash(segs, i - 1) + seq!['/'] + segs[i - 1]
    }
}

/// The lexical normal form of a path: `.` segments and empty segments
/// dropped, `..` segments cancelled against the segment before them, the
/// leading `/` of an absolute path kept, and a relative path whose
/// segments all cancel written `.`.  Two spellings of the same file
/// compare equal under it, so a cycle spelled through `.` or `..` is
/// still a cycle.
pub open spec fn normalize(p: Seq<char>) -> Seq<char> {
    let absolute = p.len() > 0 && p[0] == '/';
    let segs = collapse_from(path_segments(p), 0, Seq::<Seq<char>>::empty(), absolute);
    if absolute {
        seq!['/'] + join_slash(segs, segs.len() as int)
    } else if segs.len() == 0 {
        dot_seg()
    } else {
        join_slash(segs, segs.len() as int)
    }
}

/// `rel` resolved against directory `dir`: the two joined, in lexical
/// normal form.
pub open spec fn resolve(dir: Seq<char>, rel: Seq<char>) -> Seq<char> {
    normalize(joined_path(dir, rel))
}

/// The segments of `p`, mirroring `path_segments`.
fn path_segments_of(p: Vec<char>) -> (r: Vec<Vec<char>>)
    ensures
        lines_view(r@) == path_segments(p@),
    decreases p@.len(),
{
    if p.len() == 0 {
        let r: Vec<Vec<char>> = Vec::new();
        proof {
            assert(lines_view(r@) =~= path_segments(p@));
        }
        return r;
    }
    proof {
        lemma_find_char_bounds(p@, 0, '/');
    }
    let j = find_char_at(&p, 0, '/');
    if j >= p.len() {
        let ghost pv = p@;
        let mut r: Vec<Vec<char>> = Vec::new();
        r.push(p);
        proof {
            assert(lines_view(r@) =~= seq![pv]);
        }
        r
    } else if j == 0 {
        let tail = copy_range(&p, 1, p.len());
        proof {
            assert(tail@ == p@.subrange(1, p@.len() as int));
        }
        path_segments_of(tail)
    } else {
        let seg = copy_range(&p, 0, j);
        let tail = copy_range(&p, j + 1, p.len());
        let ghost segv = seg@;
        let ghost tailv = tail@;
        let mut r = path_segments_of(tail);
        r.insert(0, seg);
        proof {
            assert(lines_view(r@) =~= seq![segv] + path_segments(tailv));
        }
        r
    }
}

/// The lexical collapse of `segs`, mirroring `collapse_from`.
fn collapse_segments(segs: &Vec<Vec<char>>, absolute: bool) -> (r: Vec<Vec<char>>)
    ensures
        lines_view(r@) == collapse_from(
            lines_view(segs@),
            0,
            Seq::<Seq<char>>::empty(),
            absolute,
        ),
{
    let mut dot: Vec<char> = Vec::new();
    dot.push('.');
    let mut dotdot: Vec<char> = Vec::new();
    dotdot.push('.');
    dotdot.push('.');
    proof {
        assert(dot@ =~= dot_seg());
        assert(dotdot@ =~= dotdot_seg());
    }
    let mut acc: Vec<Vec<char>> = Vec::new();
    let n: usize = segs.len();
    let mut i: usize = 0;
    proof {
        assert(lines_view(acc@) =~= Seq::<Seq<char>>::empty());
    }
    while i < n
        invariant
            n == segs@.len(),
            i <= n,
            dot@ == dot_seg(),
            dotdot@ == dotdot_seg(),
            collapse_from(lines_view(segs@), 0, Seq::<Seq<char>>::empty(), absolute)
                == collapse_from(lines_view(segs@), i as int, lines_view(acc@), absolute),
        decreases n - i,
    {
        proof {
            assert(lines_view(segs@)[i as int] == segs@[i as int]@);
        }
        if seq_eq(&segs[i], &dot) {
            // dropped
        } else if seq_eq(&segs[i], &dotdot) {
            let top_cancels: bool = if acc.len() > 0 {
                !seq_eq(&acc[acc.len() - 1], &dotdot)
            } else {
                false
            };
            if top_cancels {
                let ghost prev = lines_view(acc@);
                proof {
                    assert(prev.last() == acc@[acc@.len() - 1]@);
                }
                let _ = acc.pop();
                proof {
                    assert(lines_view(acc@) =~= prev.drop_last());
                }
            } else if absolute {
                // above the root: dropped
            } else {
                let ghost prev = lines_view(acc@);
                let c = copy_chars(&segs[i]);
                let ghost cv = c@;
                acc.push(c);
                proof {
                    assert(lines_view(acc@) =~= prev.push(cv));
                }
            }
        } else {
            let ghost prev = lines_view(acc@);
            let c = copy_chars(&segs[i]);
            let ghost cv = c@;
            acc.push(c);
            proof {
                assert(lines_view(acc@) =~= prev.push(cv));
            }
        }
        i = i + 1;
    }
    proof {
        assert(collapse_from(lines_view(segs@), n as int, lines_view(acc@), absolute)
            == lines_view(acc@));
    }
    acc
}

/// The segments joined by `/`, mirroring `join_slash`.
fn join_slash_of(segs: &Vec<Vec<char>>) -> (r: Vec<char>)
    ensures
        r@ == join_slash(lines_view(segs@), segs@.len() as int),
{
    let mut out: Vec<char> = Vec::new();
    let n: usize = segs.len();
    let mut i: usize = 0;
    while i < n
        invariant
            n == segs@.len(),
            i <= n,
            out@ == join_slash(lines_view(segs@), i as int),
        decreases n - i,
    {
        if i > 0 {
            out.push('/');
        }
        append_chars(&mut out, &segs[i]);
        proof {
            assert(lines_view(segs@)[i as int] == segs@[i as int]@);
            if i == 0 {
                assert(out@ =~= join_slash(lines_view(segs@), 1));
            } else {
                assert(out@ =~= join_slash(lines_view(segs@), i as int) + seq!['/']
                    + lines_view(segs@)[i as int]);
            }
        }
        i = i + 1;
    }
    out
}

/// The lexical normal form of `p`, mirroring `normalize`.
pub fn normalize_path(p: &Vec<char>) -> (r: Vec<char>)
    ensures
        r@ == normalize(p@),
{
    let absolute: bool = p.len() > 0 && p[0] == '/';
    let segs = path_segments_of(copy_chars(p));
    let collapsed = collapse_segments(&segs, absolute);
    let joined = join_slash_of(&collapsed);
    if absolute {
        let mut r: Vec<char> = Vec::new();
        r.push('/');
        append_chars(&mut r, &joined);
        proof {
            assert(r@ =~= normalize(p@));
        }
        r
    } else if collapsed.len() == 0 {
        let mut r: Vec<char> = Vec::new();
        r.push('.');
        proof {
            assert(r@ =~= dot_seg());
        }
        r
    } else {
        joined
    }
}

/// `rel` resolved against directory `dir`.
pub fn resolve_path(dir: &Vec<char>, rel: &Vec<char>) -> (r: Vec<char>)
    ensures
        r@ == resolve(dir@, rel@),
{
    let raw: Vec<char>;
    if rel.len() > 0 && rel[0] == '/' {
        raw = copy_chars(rel);
    } else if dir.len() == 0 {
        raw = copy_chars(rel);
    } else if dir[dir.len() - 1] == '/' {
        let mut r = copy_chars(dir);
        append_chars(&mut r, rel);
        raw = r;
    } else {
        let mut r = copy_chars(dir);
        r.push('/');
        append_chars(&mut r, rel);
        proof {
            assert(r@ =~= dir@ + seq!['/'] + rel@);
        }
        raw = r;
    }
    proof {
        assert(raw@ == joined_path(dir@, rel@));
    }
    normalize_path(&raw)
}

/// The lines of the file at `path` in `files`, or `None`: first match wins.
pub open spec fn lookup(files: Seq<FileEntry>, path: Seq<char>) -> Option<Seq<Seq<char>>>
    decreases files.len(),
{
    if files.len() == 0 {
        None
    } else if files[0].path@ == path {
        Some(lines_view(files[0].lines@))
    } else {
        lookup(files.drop_first(), path)
    }
}

/// Index of the file at `path`, mirroring `lookup`.
fn find_file(files: &FileSet, path: &Vec<char>) -> (r: Option<usize>)
    ensures
        match r {
            Some(k) => k < files.files@.len() && files.files@[k as int].path@ == path@ && lookup(
                files.files@,
                path@,
            ) == Some(lines_view(files.files@[k as int].lines@)),
            None => lookup(files.files@, path@) is None,
        },
{
    let n: usize = files.files.len();
    let mut k: usize = 0;
    proof {
        assert(files.files@.skip(0) =~= files.files@);
    }
    while k < n
        invariant
            n == files.files@.len(),
            k <= n,
            lookup(files.files@, path@) == lookup(files.files@.skip(k as int), path@),
            forall|k2: int| 0 <= k2 < k ==> files.files@[k2].path@ != path@,
        decreases n - k,
    {
        if seq_eq(&files.files[k].path, path) {
            proof {
                assert(files.files@.skip(k as int)[0] == files.files@[k as int]);
            }
            return Some(k);
        }
        proof {
            assert(files.files@.skip(k as int)[0] == files.files@[k as int]);
            assert(files.files@.skip(k as int).drop_first() =~= files.files@.skip(k as int + 1));
        }
        k = k + 1;
    }
    proof {
        assert(files.files@.skip(n as int).len() == 0);
    }
    None
}

/// The set of paths currently being expanded.
pub open spec fn visited_of(ps: Seq<Seq<char>>) -> Set<Seq<char>> {
    Set::new(|p: Seq<char>| ps.contains(p))
}

/// How many entries of `files` have a path outside `visited`; the measure
/// that bounds the expansion recursion.
pub open spec fn unvisited_count(files: Seq<FileEntry>, visited: Set<Seq<char>>) -> nat
    decreases files.len(),
{
    if files.len() == 0 {
        0
    } else {
        (if visited.contains(files[0].path@) {
            0nat
        } else {
            1nat
        }) + unvisited_count(files.drop_first(), visited)
    }
}

/// Marking one more path visited never raises the measure.
proof fn lemma_unvisited_le(files: Seq<FileEntry>, visited: Set<Seq<char>>, p: Seq<char>)
    ensures
        unvisited_count(files, visited.insert(p)) <= unvisited_count(files, visited),
    decreases files.len(),
{
    if files.len() > 0 {
        lemma_unvisited_le(files.drop_first(), visited, p);
    }
}

/// Marking a present, not yet visited path visited lowers the measure.
proof fn lemma_unvisited_insert(files: Seq<FileEntry>, visited: Set<Seq<char>>, p: Seq<char>)
    requires
        lookup(files, p) is Some,
        !visited.contains(p),
    ensures
        unvisited_count(files, visited.insert(p)) < unvisited_count(files, visited),
    decreases files.len(),
{
    if files.len() > 0 {
        if files[0].path@ == p {
            lemma_unvisited_le(files.drop_first(), visited, p);
        } else {
            lemma_unvisited_insert(files.drop_first(), visited, p);
        }
    }
}

/// The result of loading the file at `path`: its lines, trimmed, with every
/// inclusion directive replaced depth-first by the load of its target.
pub open spec fn load_file_view(
    files: Seq<FileEntry>,
    path: Seq<char>,
    visited: Set<Seq<char>>,
) -> Result<Seq<Seq<char>>, LoadErrorView>
    decreases unvisited_count(files, visited), 0nat,
    via load_file_view_dec
{
    if visited.contains(path) {
        Err(LoadErrorView::IncludeCycle { path })
    } else {
        match lookup(files, path) {
            None => Err(LoadErrorView::SourceNotFound { path }),
            Some(content) => expand_lines_view(
                files,
                content,
                0,
                dir_of(path),
                visited.insert(path),
            ),
        }
    }
}

/// The expansion of `lines[i..]` under directory `dir`: a non-directive
/// line contributes its trimmed self, a directive line splices in the load
/// of its resolved target.
pub open spec fn expand_lines_view(
    files: Seq<FileEntry>,
    lines: Seq<Seq<char>>,
    i: int,
    dir: Seq<char>,
    visited: Set<Seq<char>>,
) -> Result<Seq<Seq<char>>, LoadErrorView>
    decreases unvisited_count(files, visited), lines.len() - i + 1,
    via expand_lines_view_dec
{
    if i < 0 || i >= lines.len() {
        Ok(Seq::<Seq<char>>::empty())
    } else {
        let t = trim_view(lines[i]);
        if is_directive(t) {
            let arg = directive_arg(t);
            if arg.len() == 0 {
                Err(LoadErrorView::IncludeResolutionError { line: t })
            } else {
                let target = resolve(dir, strip_both(arg, '"'));
                match load_file_view(files, target, visited) {
                    Err(e) => Err(e),
                    Ok(inner) => match expand_lines_view(files, lines, i + 1, dir, visited) {
                        Err(e) => Err(e),
                        Ok(rest) => Ok(inner + rest),
                    },
                }
            }
        } else {
            match expand_lines_view(files, lines, i + 1, dir, visited) {
                Err(e) => Err(e),
                Ok(rest) => Ok(seq![t] + rest),
            }
        }
    }
}

#[via_fn]
proof fn load_file_view_dec(files: Seq<FileEntry>, path: Seq<char>, visited: Set<Seq<char>>) {
    if !visited.contains(path) && lookup(files, path) is Some {
        lemma_unvisited_insert(files, visited, path);
    }
}

#[via_fn]
proof fn expand_lines_view_dec(
    files: Seq<FileEntry>,
    lines: Seq<Seq<char>>,
    i: int,
    dir: Seq<char>,
    visited: Set<Seq<char>>,
) {
}

/// The load of the whole rule source rooted at `root`; the root path is
/// taken in its lexical normal form, like every resolved target, so that
/// all paths on the expansion stack compare under one spelling.
pub open spec fn load_view(files: Seq<FileEntry>, root: Seq<char>) -> Result<
    Seq<Seq<char>>,
    LoadErrorView,
> {
    load_file_view(files, normalize(root), Set::<Seq<char>>::empty())
}

/// Expansion looks at one line at a time: lines beyond `a` are expanded as
/// if they stood in a source of their own.
proof fn lemma_expand_shift(
    files: Seq<FileEntry>,
    a: Seq<Seq<char>>,
    b: Seq<Seq<char>>,
    dir: Seq<char>,
    visited: Set<Seq<char>>,
    k: int,
)
    requires
        0 <= k <= b.len(),
    ensures
        expand_lines_view(files, a + b, a.len() + k, dir, visited) == expand_lines_view(
            files,
            b,
            k,
            dir,
            visited,
        ),
    decreases b.len() - k,
{
    if k < b.len() {
        assert((a + b)[a.len() + k] == b[k]);
        lemma_expand_shift(files, a, b, dir, visited, k + 1);
    }
}

/// Round trip of inclusion: expanding the concatenation of two line
/// sequences yields the concatenation of their expansions, so a source
/// spliced into another at a directive expands exactly as if its lines
/// stood there inline, depth-first and left to right.
pub proof fn lemma_expand_concat_from(
    files: Seq<FileEntry>,
    a: Seq<Seq<char>>,
    b: Seq<Seq<char>>,
    dir: Seq<char>,
    visited: Set<Seq<char>>,
    i: int,
)
    requires
        0 <= i <= a.len(),
        expand_lines_view(files, a, i, dir, visited) is Ok,
        expand_lines_view(files, b, 0, dir, visited) is Ok,
    ensures
        expand_lines_view(files, a + b, i, dir, visited) == Ok::<_, LoadErrorView>(
            expand_lines_view(files, a, i, dir, visited)->Ok_0 + expand_lines_view(
                files,
                b,
                0,
                dir,
                visited,
            )->Ok_0,
        ),
    decreases a.len() - i,
{
    let y = expand_lines_view(files, b, 0, dir, visited)->Ok_0;
    if i == a.len() {
        lemma_expand_shift(files, a, b, dir, visited, 0);
        assert(expand_lines_view(files, a, i, dir, visited)->Ok_0 =~= Seq::<Seq<char>>::empty());
        assert(Seq::<Seq<char>>::empty() + y =~= y);
    } else {
        assert((a + b)[i] == a[i]);
        lemma_expand_concat_from(files, a, b, dir, visited, i + 1);
        let t = trim_view(a[i]);
        let rest = expand_lines_view(files, a, i + 1, dir, visited)->Ok_0;
        if is_directive(t) {
            let target = resolve(dir, strip_both(directive_arg(t), '"'));
            let inner = load_file_view(files, target, visited)->Ok_0;
            assert(inner + (rest + y) =~= (inner + rest) + y);
        } else {
            assert(seq![t] + (rest + y) =~= (seq![t] + rest) + y);
        }
    }
}

/// Round trip of inclusion at the top: when both expand successfully, the
/// expansion of `a + b` is the expansion of `a` followed by that of `b`.
pub proof fn lemma_expand_concat(
    files: Seq<FileEntry>,
    a: Seq<Seq<char>>,
    b: Seq<Seq<char>>,
    dir: Seq<char>,
    visited: Set<Seq<char>>,
)
    requires
        expand_lines_view(files, a, 0, dir, visited) is Ok,
        expand_lines_view(files, b, 0, dir, visited) is Ok,
    ensures
        expand_lines_view(files, a + b, 0, dir, visited) == Ok::<_, LoadErrorView>(
            expand_lines_view(files, a, 0, dir, visited)->Ok_0 + expand_lines_view(
                files,
                b,
                0,
                dir,
                visited,
            )->Ok_0,
        ),
{
    lemma_expand_concat_from(files, a, b, dir, visited, 0);
}

/// Recording one more path on the expansion stack marks exactly it visited.
proof fn lemma_visited_push(ps: Seq<Seq<char>>, x: Seq<char>)
    ensures
        visited_of(ps.push(x)) == visited_of(ps).insert(x),
{
    assert forall|q: Seq<char>| visited_of(ps.push(x)).contains(q) implies visited_of(
        ps,
    ).insert(x).contains(q) by {
        let k = choose|k: int| 0 <= k < ps.push(x).len() && ps.push(x)[k] == q;
        if k < ps.len() {
            assert(ps[k] == q);
        }
    }
    assert forall|q: Seq<char>| visited_of(ps).insert(x).contains(q) implies visited_of(
        ps.push(x),
    ).contains(q) by {
        if q == x {
            assert(ps.push(x)[ps.len() as int] == q);
        } else {
            let k = choose|k: int| 0 <= k < ps.len() && ps[k] == q;
            assert(ps.push(x)[k] == q);
        }
    }
    assert(visited_of(ps.push(x)) =~= visited_of(ps).insert(x));
}

fn load_file_rec(files: &FileSet, path: &Vec<char>, visiting: &Vec<Vec<char>>) -> (r: Result<
    Vec<Vec<char>>,
    LoadError,
>)
    ensures
        match r {
            Ok(v) => load_file_view(files.files@, path@, visited_of(lines_view(visiting@)))
                == Ok::<_, LoadErrorView>(lines_view(v@)),
            Err(e) => load_file_view(files.files@, path@, visited_of(lines_view(visiting@)))
                == Err::<Seq<Seq<char>>, _>(e@),
        },
    decreases unvisited_count(files.files@, visited_of(lines_view(visiting@))), 0nat,
{
    if list_contains(visiting, path) {
        return Err(LoadError::IncludeCycle { path: copy_chars(path) });
    }
    match find_file(files, path) {
        None => Err(LoadError::SourceNotFound { path: copy_chars(path) }),
        Some(k) => {
            let dir = dir_of_path(path);
            let mut deeper: Vec<Vec<char>> = Vec::new();
            let mut vi: usize = 0;
            let n: usize = visiting.len();
            while vi < n
                invariant
                    n == visiting@.len(),
                    vi <= n,
                    lines_view(deeper@) == lines_view(visiting@).subrange(0, vi as int),
                decreases n - vi,
            {
                let ghost prev = deeper@;
                let c = copy_chars(&visiting[vi]);
                let ghost cv = c@;
                deeper.push(c);
                vi = vi + 1;
                proof {
                    assert(cv == lines_view(visiting@)[vi - 1]);
                    assert(lines_view(deeper@) =~= lines_view(prev).push(cv));
                    assert(lines_view(visiting@).subrange(0, vi as int) =~= lines_view(
                        visiting@,
                    ).subrange(0, vi - 1).push(lines_view(visiting@)[vi - 1]));
                    assert(lines_view(deeper@) =~= lines_view(visiting@).subrange(0, vi as int));
                }
            }
            proof {
                assert(lines_view(deeper@) =~= lines_view(visiting@));
            }
            let ghost dprev = deeper@;
            let pc = copy_chars(path);
            let ghost pcv = pc@;
            deeper.push(pc);
            proof {
                assert(lines_view(deeper@) =~= lines_view(dprev).push(pcv));
                assert(lines_view(deeper@) =~= lines_view(visiting@).push(path@));
                lemma_visited_push(lines_view(visiting@), path@);
                lemma_unvisited_insert(
                    files.files@,
                    visited_of(lines_view(visiting@)),
                    path@,
                );
            }
            expand_lines_rec(files, &files.files[k].lines, 0, &dir, &deeper)
        },
    }
}

fn expand_lines_rec(
    files: &FileSet,
    lines: &Vec<Vec<char>>,
    i: usize,
    dir: &Vec<char>,
    visiting: &Vec<Vec<char>>,
) -> (r: Result<Vec<Vec<char>>, LoadError>)
    ensures
        match r {
            Ok(v) => expand_lines_view(
                files.files@,
                lines_view(lines@),
                i as int,
                dir@,
                visited_of(lines_view(visiting@)),
            ) == Ok::<_, LoadErrorView>(lines_view(v@)),
            Err(e) => expand_lines_view(
                files.files@,
                lines_view(lines@),
                i as int,
                dir@,
                visited_of(lines_view(visiting@)),
            ) == Err::<Seq<Seq<char>>, _>(e@),
        },
    decreases unvisited_count(files.files@, visited_of(lines_view(visiting@))),
        lines@.len() - i + 1,
{
    if i >= lines.len() {
        let r: Vec<Vec<char>> = Vec::new();
        proof {
            assert(lines_view(r@) =~= Seq::<Seq<char>>::empty());
        }
        return Ok(r);
    }
    let t = trim(&lines[i]);
    proof {
        assert(lines_view(lines@)[i as int] == lines@[i as int]@);
    }
    if is_directive_line(&t) {
        let arg = directive_arg_of(&t);
        if arg.len() == 0 {
            return Err(LoadError::IncludeResolutionError { line: t });
        }
        let quoted = strip_both_char(&arg, '"');
        let target = resolve_path(dir, &quoted);
        let inner = match load_file_rec(files, &target, visiting) {
            Err(e) => {
                return Err(e);
            },
            Ok(v) => v,
        };
        let rest = match expand_lines_rec(files, lines, i + 1, dir, visiting) {
            Err(e) => {
                return Err(e);
            },
            Ok(v) => v,
        };
        let ghost innerv = lines_view(inner@);
        let ghost restv = lines_view(rest@);
        let mut out = inner;
        let mut ri: usize = 0;
        let nr: usize = rest.len();
        while ri < nr
            invariant
                nr == rest@.len(),
                ri <= nr,
                restv == lines_view(rest@),
                lines_view(out@) == innerv + lines_view(rest@).subrange(0, ri as int),
            decreases nr - ri,
        {
            let ghost prev = out@;
            let c = copy_chars(&rest[ri]);
            let ghost cv = c@;
            out.push(c);
            ri = ri + 1;
            proof {
                assert(cv == lines_view(rest@)[ri - 1]);
                assert(lines_view(out@) =~= lines_view(prev).push(cv));
                assert(lines_view(rest@).subrange(0, ri as int) =~= lines_view(rest@).subrange(
                    0,
                    ri - 1,
                ).push(lines_view(rest@)[ri - 1]));
                assert(lines_view(out@) =~= innerv + lines_view(rest@).subrange(0, ri as int));
            }
        }
        proof {
            assert(lines_view(out@) =~= innerv + restv);
        }
        Ok(out)
    } else {
        let rest = match expand_lines_rec(files, lines, i + 1, dir, visiting) {
            Err(e) => {
                return Err(e);
            },
            Ok(v) => v,
        };
        let ghost tv = t@;
        let ghost restv = lines_view(rest@);
        let mut out: Vec<Vec<char>> = Vec::new();
        out.push(t);
        let mut ri: usize = 0;
        let nr: usize = rest.len();
        proof {
            assert(lines_view(out@) =~= seq![tv] + lines_view(rest@).subrange(0, 0));
        }
        while ri < nr
            invariant
                nr == rest@.len(),
                ri <= nr,
                restv == lines_view(rest@),
                lines_view(out@) == seq![tv] + lines_view(rest@).subrange(0, ri as int),
            decreases nr - ri,
        {
            let ghost prev = out@;
            let c = copy_chars(&rest[ri]);
            let ghost cv = c@;
            out.push(c);
            ri = ri + 1;
            proof {
                assert(cv == lines_view(rest@)[ri - 1]);
                assert(lines_view(out@) =~= lines_view(prev).push(cv));
                assert(lines_view(rest@).subrange(0, ri as int) =~= lines_view(rest@).subrange(
                    0,
                    ri - 1,
                ).push(lines_view(rest@)[ri - 1]));
                assert(lines_view(out@) =~= seq![tv] + lines_view(rest@).subrange(0, ri as int));
            }
        }
        proof {
            assert(lines_view(out@) =~= seq![tv] + restv);
        }
        Ok(out)
    }
}

impl FileSet {
    /// An empty file set.
    pub fn new() -> (r: FileSet)
        ensures
            r.files@.len() == 0,
    {
        FileSet { files: Vec::new() }
    }

    /// Adds a file; an existing entry under the same path keeps priority.
    pub fn insert(&mut self, path: Vec<char>, lines: Vec<Vec<char>>)
        ensures
            final(self).files@ == old(self).files@.push((FileEntry { path: path, lines: lines })),
    {
        self.files.push(FileEntry { path, lines });
    }
}

/// Loads the rule source rooted at `root` from `files`: the root's lines,
/// trimmed, with every inclusion directive replaced depth-first by the
/// load of its target, resolved against the directory of the file that
/// names it.  Fails with `SourceNotFound` when a file is missing from the
/// set, `IncludeResolutionError` when a directive lacks its path argument,
/// and `IncludeCycle` when expansion would recurse into a file already on
/// the active path; no partial result is returned.
pub fn load(files: &FileSet, root: &Vec<char>) -> (r: Result<Vec<Vec<char>>, LoadError>)
    ensures
        match r {
            Ok(v) => load_view(files.files@, root@) == Ok::<_, LoadErrorView>(lines_view(v@)),
            Err(e) => load_view(files.files@, root@) == Err::<Seq<Seq<char>>, _>(e@),
        },
{
    let visiting: Vec<Vec<char>> = Vec::new();
    proof {
        assert(visited_of(lines_view(visiting@)) =~= Set::<Seq<char>>::empty());
    }
    let nroot = normalize_path(root);
    load_file_rec(files, &nroot, &visiting)
}

} // verus!
