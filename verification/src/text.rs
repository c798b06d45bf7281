//! Character-sequence utilities shared by the loader, the compiler and the
//! port-allowlist editor: trimming, tokenisation, prefix tests, substring
//! search and lexicographic sorting.

use vstd::prelude::*;
use vstd::string::StrSliceExecFns;

verus! {

/// True when `c` is a whitespace character of the rule language:
/// space, tab, carriage return or line feed.  Only these four ASCII
/// characters separate tokens or are trimmed; other Unicode spacing
/// characters count as ordinary text.
pub open spec fn is_space(c: char) -> bool {
    c == ' ' || c == '\t' || c == '\r' || c == '\n'
}

/// Executable counterpart of `is_space`.
pub fn is_space_char(c: char) -> (r: bool)
    ensures
        r == is_space(c),
{
    c == ' ' || c == '\t' || c == '\r' || c == '\n'
}

/// The characters of `s`, one `char` per element.
pub fn chars_of(s: &str) -> (r: Vec<char>)
    ensures
        r@ == s@,
{
    let n: usize = s.unicode_len();
    let mut r: Vec<char> = Vec::new();
    let mut i: usize = 0;
    while i < n
        invariant
            n == s@.len(),
            i <= n,
            r@ == s@.subrange(0, i as int),
        decreases n - i,
    {
        r.push(s.get_char(i));
        i = i + 1;
        proof {
            assert(r@ =~= s@.subrange(0, i as int));
        }
    }
    proof {
        assert(r@ =~= s@);
    }
    r
}

/// Appends the characters of the string slice `s` to `out`.
pub fn append_str(out: &mut Vec<char>, s: &str)
    ensures
        final(out)@ == old(out)@ + s@,
{
    let n: usize = s.unicode_len();
    let mut i: usize = 0;
    while i < n
        invariant
            n == s@.len(),
            i <= n,
            out@ == old(out)@ + s@.subrange(0, i as int),
        decreases n - i,
    {
        out.push(s.get_char(i));
        i = i + 1;
        proof {
            assert(out@ =~= old(out)@ + s@.subrange(0, i as int));
        }
    }
    proof {
        assert(out@ =~= old(out)@ + s@);
    }
}

/// Appends a copy of `src` to `out`.
pub fn append_chars(out: &mut Vec<char>, src: &Vec<char>)
    ensures
        final(out)@ == old(out)@ + src@,
{
    let n: usize = src.len();
    let mut i: usize = 0;
    while i < n
        invariant
            n == src@.len(),
            i <= n,
            out@ == old(out)@ + src@.subrange(0, i as int),
        decreases n - i,
    {
        out.push(src[i]);
        i = i + 1;
        proof {
            assert(out@ =~= old(out)@ + src@.subrange(0, i as int));
        }
    }
    proof {
        assert(out@ =~= old(out)@ + src@);
    }
}

/// A copy of `v`.
pub fn copy_chars(v: &Vec<char>) -> (r: Vec<char>)
    ensures
        r@ == v@,
{
    let mut r: Vec<char> = Vec::new();
    append_chars(&mut r, v);
    r
}

/// A copy of `v[from..to]`.
pub fn copy_range(v: &Vec<char>, from: usize, to: usize) -> (r: Vec<char>)
    requires
        from <= to <= v@.len(),
    ensures
        r@ == v@.subrange(from as int, to as int),
{
    let mut r: Vec<char> = Vec::new();
    let mut i: usize = from;
    while i < to
        invariant
            from <= i <= to <= v@.len(),
            r@ == v@.subrange(from as int, i as int),
        decreases to - i,
    {
        r.push(v[i]);
        i = i + 1;
        proof {
            assert(r@ =~= v@.subrange(from as int, i as int));
        }
    }
    r
}

/// True exactly when `a` and `b` hold the same characters.
pub fn seq_eq(a: &Vec<char>, b: &Vec<char>) -> (r: bool)
    ensures
        r == (a@ == b@),
{
    if a.len() != b.len() {
        proof {
            assert(a@ != b@);
        }
        return false;
    }
    let n: usize = a.len();
    let mut i: usize = 0;
    while i < n
        invariant
            n == a@.len() == b@.len(),
            i <= n,
            forall|k: int| 0 <= k < i ==> a@[k] == b@[k],
        decreases n - i,
    {
        if a[i] != b[i] {
            return false;
        }
        i = i + 1;
    }
    proof {
        assert(a@ =~= b@);
    }
    true
}

/// The views of the elements of `xs`, in order.
pub open spec fn lines_view(xs: Seq<Vec<char>>) -> Seq<Seq<char>> {
    Seq::new(xs.len(), |i: int| xs[i]@)
}

/// True exactly when some element of `xs` holds the same characters as `x`.
pub fn list_contains(xs: &Vec<Vec<char>>, x: &Vec<char>) -> (r: bool)
    ensures
        r == lines_view(xs@).contains(x@),
{
    let n: usize = xs.len();
    let mut i: usize = 0;
    while i < n
        invariant
            n == xs@.len(),
            i <= n,
            forall|k: int| 0 <= k < i ==> lines_view(xs@)[k] != x@,
        decreases n - i,
    {
        if seq_eq(&xs[i], x) {
            proof {
                assert(lines_view(xs@)[i as int] == x@);
            }
            return true;
        }
        i = i + 1;
    }
    proof {
        assert(forall|k: int| 0 <= k < lines_view(xs@).len() ==> lines_view(xs@)[k] != x@);
    }
    false
}

/// True when `p` is a prefix of `s`.
pub open spec fn starts_with(s: Seq<char>, p: Seq<char>) -> bool {
    p.len() <= s.len() && s.subrange(0, p.len() as int) == p
}

/// Index of the first character at or after `i` that is not a space,
/// or `s.len()` when every later character is a space.
pub open spec fn scan_nonspace(s: Seq<char>, i: int) -> int
    decreases s.len() - i,
{
    if i < 0 {
        i
    } else if i >= s.len() || !is_space(s[i]) {
        i
    } else {
        scan_nonspace(s, i + 1)
    }
}

/// Index one past the last character before `j` that is not a space,
/// or `0` when every earlier character is a space.
pub open spec fn scan_nonspace_rev(s: Seq<char>, j: int) -> int
    decreases j,
{
    if j <= 0 || j > s.len() {
        j
    } else if !is_space(s[j - 1]) {
        j
    } else {
        scan_nonspace_rev(s, j - 1)
    }
}

/// `s` without its leading and trailing whitespace.
pub open spec fn trim_view(s: Seq<char>) -> Seq<char> {
    if scan_nonspace(s, 0) >= scan_nonspace_rev(s, s.len() as int) {
        Seq::<char>::empty()
    } else {
        s.subrange(scan_nonspace(s, 0), scan_nonspace_rev(s, s.len() as int))
    }
}

/// A copy of `line` with leading and trailing whitespace removed.
pub fn trim(line: &Vec<char>) -> (r: Vec<char>)
    ensures
        r@ == trim_view(line@),
{
    let n: usize = line.len();
    let mut i: usize = 0;
    while i < n && is_space_char(line[i])
        invariant
            n == line@.len(),
            i <= n,
            scan_nonspace(line@, 0) == scan_nonspace(line@, i as int),
        decreases n - i,
    {
        i = i + 1;
    }
    proof {
        assert(scan_nonspace(line@, 0) == i as int);
    }
    let mut j: usize = n;
    while j > 0 && is_space_char(line[j - 1])
        invariant
            n == line@.len(),
            j <= n,
            scan_nonspace_rev(line@, n as int) == scan_nonspace_rev(line@, j as int),
        decreases j,
    {
        j = j - 1;
    }
    proof {
        assert(scan_nonspace_rev(line@, n as int) == j as int);
    }
    if i >= j {
        Vec::new()
    } else {
        copy_range(line, i, j)
    }
}

/// Index of the first space at or after `i`, or `s.len()` when the token
/// runs to the end of the line.
pub open spec fn token_end(s: Seq<char>, i: int) -> int
    decreases s.len() - i,
{
    if i < 0 {
        i
    } else if i >= s.len() || is_space(s[i]) {
        i
    } else {
        token_end(s, i + 1)
    }
}

/// `token_end` never moves backwards and never passes the end of `s`.
pub proof fn lemma_token_end_bounds(s: Seq<char>, i: int)
    requires
        0 <= i <= s.len(),
    ensures
        i <= token_end(s, i) <= s.len(),
        i < s.len() && !is_space(s[i]) ==> i < token_end(s, i),
        token_end(s, i) < s.len() ==> is_space(s[token_end(s, i)]),
    decreases s.len() - i,
{
    if i < s.len() && !is_space(s[i]) {
        lemma_token_end_bounds(s, i + 1);
    }
}

/// Index of the first space at or after `i`.
pub fn token_end_at(s: &Vec<char>, i: usize) -> (r: usize)
    requires
        i <= s@.len(),
    ensures
        r == token_end(s@, i as int),
        i <= r <= s@.len(),
{
    let n: usize = s.len();
    let mut j: usize = i;
    while j < n && !is_space_char(s[j])
        invariant
            n == s@.len(),
            i <= j <= n,
            token_end(s@, i as int) == token_end(s@, j as int),
        decreases n - j,
    {
        j = j + 1;
    }
    proof {
        assert(token_end(s@, j as int) == j as int);
    }
    j
}

/// Index of the first character at or after `i` that is not a space.
pub fn scan_nonspace_at(s: &Vec<char>, i: usize) -> (r: usize)
    requires
        i <= s@.len(),
    ensures
        r == scan_nonspace(s@, i as int),
        i <= r <= s@.len(),
{
    let n: usize = s.len();
    let mut j: usize = i;
    while j < n && is_space_char(s[j])
        invariant
            n == s@.len(),
            i <= j <= n,
            scan_nonspace(s@, i as int) == scan_nonspace(s@, j as int),
        decreases n - j,
    {
        j = j + 1;
    }
    proof {
        assert(scan_nonspace(s@, j as int) == j as int);
    }
    j
}

/// A sequence extended by one element contains exactly the old elements
/// and the new one.
pub proof fn lemma_push_contains<T>(s: Seq<T>, x: T, y: T)
    ensures
        s.push(x).contains(y) <==> (s.contains(y) || y == x),
{
    if s.push(x).contains(y) {
        let k = choose|k: int| 0 <= k < s.push(x).len() && s.push(x)[k] == y;
        if k < s.len() {
            assert(s[k] == y);
        }
    }
    if s.contains(y) {
        let k = choose|k: int| 0 <= k < s.len() && s[k] == y;
        assert(s.push(x)[k] == y);
    }
    if y == x {
        assert(s.push(x)[s.len() as int] == y);
    }
}

/// Index of the first character at or after `i` that differs from `c`,
/// or `s.len()` when every later character equals `c`.
pub open spec fn scan_char(s: Seq<char>, i: int, c: char) -> int
    decreases s.len() - i,
{
    if i < 0 {
        i
    } else if i >= s.len() || s[i] != c {
        i
    } else {
        scan_char(s, i + 1, c)
    }
}

/// Index one past the last character before `j` that differs from `c`,
/// or `0` when every earlier character equals `c`.
pub open spec fn scan_char_rev(s: Seq<char>, j: int, c: char) -> int
    decreases j,
{
    if j <= 0 || j > s.len() {
        j
    } else if s[j - 1] != c {
        j
    } else {
        scan_char_rev(s, j - 1, c)
    }
}

/// `s` without any run of leading `c` characters.
pub open spec fn strip_leading(s: Seq<char>, c: char) -> Seq<char> {
    s.subrange(scan_char(s, 0, c), s.len() as int)
}

/// `s` without any runs of leading and trailing `c` characters.
pub open spec fn strip_both(s: Seq<char>, c: char) -> Seq<char> {
    if scan_char(s, 0, c) >= scan_char_rev(s, s.len() as int, c) {
        Seq::<char>::empty()
    } else {
        s.subrange(scan_char(s, 0, c), scan_char_rev(s, s.len() as int, c))
    }
}

/// A copy of `line` with every leading `c` removed.
pub fn strip_leading_char(line: &Vec<char>, c: char) -> (r: Vec<char>)
    ensures
        r@ == strip_leading(line@, c),
{
    let n: usize = line.len();
    let mut i: usize = 0;
    while i < n && line[i] == c
        invariant
            n == line@.len(),
            i <= n,
            scan_char(line@, 0, c) == scan_char(line@, i as int, c),
        decreases n - i,
    {
        i = i + 1;
    }
    proof {
        assert(scan_char(line@, 0, c) == i as int);
    }
    copy_range(line, i, n)
}

/// A copy of `line` with every leading and trailing `c` removed.
pub fn strip_both_char(line: &Vec<char>, c: char) -> (r: Vec<char>)
    ensures
        r@ == strip_both(line@, c),
{
    let n: usize = line.len();
    let mut i: usize = 0;
    while i < n && line[i] == c
        invariant
            n == line@.len(),
            i <= n,
            scan_char(line@, 0, c) == scan_char(line@, i as int, c),
        decreases n - i,
    {
        i = i + 1;
    }
    proof {
        assert(scan_char(line@, 0, c) == i as int);
    }
    let mut j: usize = n;
    while j > 0 && line[j - 1] == c
        invariant
            n == line@.len(),
            j <= n,
            scan_char_rev(line@, n as int, c) == scan_char_rev(line@, j as int, c),
        decreases j,
    {
        j = j - 1;
    }
    proof {
        assert(scan_char_rev(line@, n as int, c) == j as int);
    }
    if i >= j {
        Vec::new()
    } else {
        copy_range(line, i, j)
    }
}

/// Index of the first occurrence of `c` at or after `i`, or `s.len()` when
/// `c` does not occur there.
pub open spec fn find_char(s: Seq<char>, i: int, c: char) -> int
    decreases s.len() - i,
{
    if i < 0 {
        i
    } else if i >= s.len() || s[i] == c {
        i
    } else {
        find_char(s, i + 1, c)
    }
}

/// `find_char` never moves backwards and never passes the end of `s`.
pub proof fn lemma_find_char_bounds(s: Seq<char>, i: int, c: char)
    requires
        0 <= i <= s.len(),
    ensures
        i <= find_char(s, i, c) <= s.len(),
    decreases s.len() - i,
{
    if i < s.len() && s[i] != c {
        lemma_find_char_bounds(s, i + 1, c);
    }
}

/// `find_char` runs to the end when the character does not occur.
pub proof fn lemma_find_char_absent(s: Seq<char>, i: int, c: char)
    requires
        0 <= i <= s.len(),
        forall|k: int| i <= k < s.len() ==> #[trigger] s[k] != c,
    ensures
        find_char(s, i, c) == s.len(),
    decreases s.len() - i,
{
    if i < s.len() {
        lemma_find_char_absent(s, i + 1, c);
    }
}

/// A block without `c`, followed by `c`, puts the first occurrence right
/// at the block's end.
pub proof fn lemma_find_char_run(u: Seq<char>, v: Seq<char>, k: int, c: char)
    requires
        0 <= k <= u.len(),
        forall|x: int| 0 <= x < u.len() ==> #[trigger] u[x] != c,
        v.len() > 0,
        v[0] == c,
    ensures
        find_char(u + v, k, c) == u.len(),
    decreases u.len() - k,
{
    if k < u.len() {
        assert((u + v)[k] == u[k]);
        lemma_find_char_run(u, v, k + 1, c);
    } else {
        assert((u + v)[k] == v[0]);
    }
}

/// Index of the first occurrence of `c` at or after `i`.
pub fn find_char_at(s: &Vec<char>, i: usize, c: char) -> (r: usize)
    requires
        i <= s@.len(),
    ensures
        r == find_char(s@, i as int, c),
        i <= r <= s@.len(),
{
    let n: usize = s.len();
    let mut j: usize = i;
    while j < n && s[j] != c
        invariant
            n == s@.len(),
            i <= j <= n,
            find_char(s@, i as int, c) == find_char(s@, j as int, c),
        decreases n - j,
    {
        j = j + 1;
    }
    proof {
        assert(find_char(s@, j as int, c) == j as int);
    }
    j
}

/// True when `needle` occurs in `hay` as a contiguous run of characters.
pub open spec fn contains_sub(hay: Seq<char>, needle: Seq<char>) -> bool {
    exists|k: int|
        0 <= k && k + needle.len() <= hay.len() && #[trigger] hay.subrange(
            k,
            k + needle.len() as int,
        ) == needle
}

/// True exactly when `needle` occurs in `hay` as a contiguous run.
pub fn has_substring(hay: &Vec<char>, needle: &Vec<char>) -> (r: bool)
    ensures
        r == contains_sub(hay@, needle@),
{
    let nl: usize = needle.len();
    let hl: usize = hay.len();
    if nl > hl {
        return false;
    }
    if nl == 0 {
        proof {
            assert(hay@.subrange(0, 0 + needle@.len() as int) =~= needle@);
        }
        return true;
    }
    let last: usize = hl - nl;
    let mut k: usize = 0;
    while k <= last
        invariant
            nl == needle@.len(),
            0 < nl <= hl,
            hl == hay@.len(),
            last == hl - nl,
            k <= last + 1,
            forall|k2: int|
                0 <= k2 < k ==> #[trigger] hay@.subrange(k2, k2 + needle@.len() as int)
                    != needle@,
        decreases last + 1 - k,
    {
        let seg = copy_range(hay, k, k + nl);
        if seq_eq(&seg, needle) {
            proof {
                assert(hay@.subrange(k as int, k as int + needle@.len() as int) == needle@);
            }
            return true;
        }
        k = k + 1;
    }
    false
}

/// Lexicographic order on character sequences by code point, the order in
/// which the port list of the allowlist file is kept.
pub open spec fn lex_le(a: Seq<char>, b: Seq<char>) -> bool
    decreases a.len(),
{
    if a.len() == 0 {
        true
    } else if b.len() == 0 {
        false
    } else if (a[0] as u32) < (b[0] as u32) {
        true
    } else if (a[0] as u32) > (b[0] as u32) {
        false
    } else {
        lex_le(a.drop_first(), b.drop_first())
    }
}

/// True exactly when `a` precedes `b` (or equals it) lexicographically.
pub fn lex_le_chars(a: &Vec<char>, b: &Vec<char>) -> (r: bool)
    ensures
        r == lex_le(a@, b@),
{
    let an: usize = a.len();
    let bn: usize = b.len();
    let mut i: usize = 0;
    proof {
        assert(a@.skip(0) =~= a@);
        assert(b@.skip(0) =~= b@);
    }
    while i < an && i < bn
        invariant
            an == a@.len(),
            bn == b@.len(),
            i <= an,
            i <= bn,
            lex_le(a@, b@) == lex_le(a@.skip(i as int), b@.skip(i as int)),
        decreases an - i,
    {
        let ca: char = a[i];
        let cb: char = b[i];
        if (ca as u32) < (cb as u32) {
            proof {
                assert(a@.skip(i as int)[0] == ca);
                assert(b@.skip(i as int)[0] == cb);
            }
            return true;
        }
        if (ca as u32) > (cb as u32) {
            proof {
                assert(a@.skip(i as int)[0] == ca);
                assert(b@.skip(i as int)[0] == cb);
            }
            return false;
        }
        proof {
            assert(a@.skip(i as int)[0] == ca);
            assert(b@.skip(i as int)[0] == cb);
            assert(a@.skip(i as int).drop_first() =~= a@.skip(i as int + 1));
            assert(b@.skip(i as int).drop_first() =~= b@.skip(i as int + 1));
        }
        i = i + 1;
    }
    proof {
        if i >= an {
            assert(a@.skip(i as int).len() == 0);
        } else {
            assert(b@.skip(i as int).len() == 0);
            assert(a@.skip(i as int).len() > 0);
        }
    }
    i >= an
}

/// `x` placed into the already-sorted sequence `s`, before the first
/// element that does not precede it.
pub open spec fn insert_sorted(x: Seq<char>, s: Seq<Seq<char>>) -> Seq<Seq<char>>
    decreases s.len(),
{
    if s.len() == 0 {
        seq![x]
    } else if lex_le(x, s[0]) {
        seq![x] + s
    } else {
        seq![s[0]] + insert_sorted(x, s.drop_first())
    }
}

/// `s` sorted lexicographically by insertion sort.
pub open spec fn sort_view(s: Seq<Seq<char>>) -> Seq<Seq<char>>
    decreases s.len(),
{
    if s.len() == 0 {
        s
    } else {
        insert_sorted(s[0], sort_view(s.drop_first()))
    }
}

/// Places `x` into the sorted list `s[from..]`, mirroring `insert_sorted`.
fn insert_sorted_from(x: Vec<char>, s: &Vec<Vec<char>>, from: usize) -> (r: Vec<Vec<char>>)
    requires
        from <= s@.len(),
    ensures
        lines_view(r@) == insert_sorted(x@, lines_view(s@).skip(from as int)),
    decreases s@.len() - from,
{
    proof {
        assert(lines_view(s@).skip(from as int).len() == s@.len() - from);
    }
    if from >= s.len() {
        let mut r: Vec<Vec<char>> = Vec::new();
        r.push(x);
        proof {
            assert(lines_view(r@) =~= seq![x@]);
        }
        r
    } else if lex_le_chars(&x, &s[from]) {
        let ghost xv = x@;
        let mut r: Vec<Vec<char>> = Vec::new();
        r.push(x);
        proof {
            assert(lines_view(r@) =~= seq![xv] + lines_view(s@).subrange(
                from as int,
                from as int,
            ));
        }
        let mut k: usize = from;
        while k < s.len()
            invariant
                from <= k <= s@.len(),
                lines_view(r@) == seq![xv] + lines_view(s@).subrange(from as int, k as int),
            decreases s@.len() - k,
        {
            let ghost prev = r@;
            let c = copy_chars(&s[k]);
            let ghost cv = c@;
            r.push(c);
            proof {
                assert(cv == lines_view(s@)[k as int]);
                assert(lines_view(r@) =~= lines_view(prev).push(cv));
                assert(lines_view(s@).subrange(from as int, k as int + 1) =~= lines_view(
                    s@,
                ).subrange(from as int, k as int).push(lines_view(s@)[k as int]));
                assert(lines_view(r@) =~= seq![xv] + lines_view(s@).subrange(
                    from as int,
                    k as int + 1,
                ));
            }
            k = k + 1;
        }
        proof {
            assert(lines_view(s@).subrange(from as int, s@.len() as int) =~= lines_view(
                s@,
            ).skip(from as int));
            assert(lines_view(r@) =~= seq![xv] + lines_view(s@).skip(from as int));
        }
        r
    } else {
        let head = copy_chars(&s[from]);
        let mut r = insert_sorted_from(x, s, from + 1);
        r.insert(0, head);
        proof {
            assert(lines_view(s@).skip(from as int)[0] == s@[from as int]@);
            assert(lines_view(s@).skip(from as int).drop_first() =~= lines_view(s@).skip(
                from as int + 1,
            ));
            assert(lines_view(r@) =~= seq![s@[from as int]@] + insert_sorted(
                x@,
                lines_view(s@).skip(from as int + 1),
            ));
        }
        r
    }
}

/// `s[from..]` sorted lexicographically, mirroring `sort_view`.
fn sort_from(s: &Vec<Vec<char>>, from: usize) -> (r: Vec<Vec<char>>)
    requires
        from <= s@.len(),
    ensures
        lines_view(r@) == sort_view(lines_view(s@).skip(from as int)),
    decreases s@.len() - from,
{
    proof {
        assert(lines_view(s@).skip(from as int).len() == s@.len() - from);
    }
    if from >= s.len() {
        let r: Vec<Vec<char>> = Vec::new();
        proof {
            assert(lines_view(r@) =~= lines_view(s@).skip(from as int));
        }
        r
    } else {
        let head = copy_chars(&s[from]);
        let rest = sort_from(s, from + 1);
        let r = insert_sorted_from(head, &rest, 0);
        proof {
            assert(lines_view(s@).skip(from as int)[0] == s@[from as int]@);
            assert(lines_view(s@).skip(from as int).drop_first() =~= lines_view(s@).skip(
                from as int + 1,
            ));
            assert(lines_view(rest@).skip(0) =~= lines_view(rest@));
        }
        r
    }
}

/// `s` sorted lexicographically.
pub fn sort_lines(s: &Vec<Vec<char>>) -> (r: Vec<Vec<char>>)
    ensures
        lines_view(r@) == sort_view(lines_view(s@)),
{
    let r = sort_from(s, 0);
    proof {
        assert(lines_view(s@).skip(0) =~= lines_view(s@));
    }
    r
}

} // verus!
