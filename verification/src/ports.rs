//! The port-allowlist file editor: a generated file whose first line is a
//! header comment, whose second line is a comment holding the sorted,
//! comma-separated list of open `port/proto` tokens, and whose remaining
//! lines hold one generated allow rule per port.  Add and remove rewrite
//! the whole contents in memory; the caller persists them.

use vstd::prelude::*;

use crate::text::chars_of;
use crate::text::copy_chars;
use crate::text::copy_range;
use crate::text::append_chars;
use crate::text::append_str;
use crate::text::contains_sub;
use crate::text::find_char;
use crate::text::find_char_at;
use crate::text::has_substring;
use crate::text::lemma_find_char_bounds;
use crate::text::lines_view;
use crate::text::list_contains;
use crate::text::seq_eq;
use crate::text::sort_lines;
use crate::text::sort_view;

verus! {

/// The metadata of the allowlist's second line: the line without its
/// leading runs of `# `.
pub open spec fn strip_hash(s: Seq<char>) -> Seq<char>
    decreases s.len(),
{
    if s.len() >= 2 && s[0] == '#' && s[1] == ' ' {
        strip_hash(s.skip(2))
    } else {
        s
    }
}

/// `s` split at every comma; an empty `s` yields no segments.
pub open spec fn split_commas(s: Seq<char>) -> Seq<Seq<char>>
    decreases s.len(),
    via split_commas_dec
{
    if s.len() == 0 {
        Seq::<Seq<char>>::empty()
    } else {
        let j = find_char(s, 0, ',');
        if j >= s.len() {
            seq![s]
        } else {
            seq![s.subrange(0, j)] + split_commas(s.subrange(j + 1, s.len() as int))
        }
    }
}

#[via_fn]
proof fn split_commas_dec(s: Seq<char>) {
    if s.len() > 0 {
        lemma_find_char_bounds(s, 0, ',');
    }
}

/// `ps` without its empty segments.
pub open spec fn nonempty(ps: Seq<Seq<char>>) -> Seq<Seq<char>>
    decreases ps.len(),
{
    if ps.len() == 0 {
        ps
    } else if ps[0].len() > 0 {
        seq![ps[0]] + nonempty(ps.drop_first())
    } else {
        nonempty(ps.drop_first())
    }
}

/// The ports recorded on the metadata line: its comma-separated non-empty
/// tokens, in order.
pub open spec fn ports_of(line: Seq<char>) -> Seq<Seq<char>> {
    nonempty(split_commas(strip_hash(line)))
}

/// The first `i` ports joined by commas.
pub open spec fn join_ports(ps: Seq<Seq<char>>, i: int) -> Seq<char>
    decreases i,
{
    if i <= 0 {
        Seq::<char>::empty()
    } else if i == 1 {
        ps[0]
    } else {
        join_ports(ps, i - 1) + seq![','] + ps[i - 1]
    }
}

/// The metadata line holding exactly the ports `ps`.
pub open spec fn meta_line(ps: Seq<Seq<char>>) -> Seq<char> {
    seq!['#', ' '] + join_ports(ps, ps.len() as int)
}

/// The port part of a `port/proto` token: everything before its first `/`,
/// or the whole token.
pub open spec fn port_of(input: Seq<char>) -> Seq<char> {
    input.subrange(0, find_char(input, 0, '/'))
}

/// The protocol part of a `port/proto` token: the segment after the first
/// `/`, or `tcp` when the token has none.
pub open spec fn proto_of(input: Seq<char>) -> Seq<char> {
    let j = find_char(input, 0, '/');
    if j >= input.len() {
        "tcp"@
    } else {
        input.subrange(j + 1, find_char(input, j + 1, '/'))
    }
}

/// The generated allow rule for one `port/proto` token.
pub open spec fn rule_line(input: Seq<char>) -> Seq<char> {
    "-A allowed-ports -p "@ + proto_of(input) + " --dport "@ + port_of(input) + " -j ACCEPT"@
}

/// The marker by which the generated rule of a port is recognised when the
/// port is removed: protocol and port together, so that only the rule of
/// this very token matches, never that of the same port under another
/// protocol.
pub open spec fn removal_needle(input: Seq<char>) -> Seq<char> {
    "-p "@ + proto_of(input) + " --dport "@ + port_of(input) + " -j ACCEPT"@
}

/// `ps` with the first occurrence of `x` removed.
pub open spec fn remove_first(ps: Seq<Seq<char>>, x: Seq<char>) -> Seq<Seq<char>>
    decreases ps.len(),
{
    if ps.len() == 0 {
        ps
    } else if ps[0] == x {
        ps.drop_first()
    } else {
        seq![ps[0]] + remove_first(ps.drop_first(), x)
    }
}

/// The first `i` lines of `ls` that do not contain `needle`, in order.
pub open spec fn retain_upto(ls: Seq<Seq<char>>, needle: Seq<char>, i: int) -> Seq<Seq<char>>
    decreases i,
{
    if i <= 0 {
        Seq::<Seq<char>>::empty()
    } else {
        retain_upto(ls, needle, i - 1) + (if contains_sub(ls[i - 1], needle) {
            Seq::<Seq<char>>::empty()
        } else {
            seq![ls[i - 1]]
        })
    }
}

/// The lines of `ls` that do not contain `needle`, in order.
pub open spec fn retained(ls: Seq<Seq<char>>, needle: Seq<char>) -> Seq<Seq<char>> {
    retain_upto(ls, needle, ls.len() as int)
}

/// A join of two or more ports starts with the first port, a comma, and
/// the join of the rest.
proof fn lemma_join_front(ps: Seq<Seq<char>>, i: int)
    requires
        2 <= i <= ps.len(),
    ensures
        join_ports(ps, i) == ps[0] + seq![','] + join_ports(ps.drop_first(), i - 1),
    decreases i,
{
    if i == 2 {
        assert(join_ports(ps, 1) == ps[0]);
        assert(join_ports(ps, 2) == join_ports(ps, 1) + seq![','] + ps[1]);
        assert(join_ports(ps.drop_first(), 1) == ps.drop_first()[0]);
        assert(ps.drop_first()[0] == ps[1]);
    } else {
        lemma_join_front(ps, i - 1);
        assert(join_ports(ps, i) == join_ports(ps, i - 1) + seq![','] + ps[i - 1]);
        assert(join_ports(ps.drop_first(), i - 1) == join_ports(ps.drop_first(), i - 2)
            + seq![','] + ps.drop_first()[i - 2]);
        assert(ps.drop_first()[i - 2] == ps[i - 1]);
        assert((ps[0] + seq![','] + join_ports(ps.drop_first(), i - 2)) + seq![','] + ps[i - 1]
            =~= ps[0] + seq![','] + (join_ports(ps.drop_first(), i - 2) + seq![','] + ps[i
            - 1]));
    }
}

/// Splitting a comma-join of nonempty, comma-free tokens gives the tokens
/// back.
proof fn lemma_split_join(ps: Seq<Seq<char>>)
    requires
        forall|k: int| 0 <= k < ps.len() ==> (#[trigger] ps[k]).len() > 0,
        forall|k: int, x: int|
            0 <= k < ps.len() && 0 <= x < ps[k].len() ==> #[trigger] ps[k][x] != ',',
    ensures
        nonempty(split_commas(join_ports(ps, ps.len() as int))) == ps,
    decreases ps.len(),
{
    if ps.len() == 0 {
        assert(join_ports(ps, 0) == Seq::<char>::empty());
        assert(nonempty(split_commas(Seq::<char>::empty())) =~= ps);
    } else if ps.len() == 1 {
        let j0 = ps[0];
        assert(join_ports(ps, 1) == j0);
        crate::text::lemma_find_char_absent(j0, 0, ',');
        assert(split_commas(j0) == seq![j0]);
        assert(seq![j0].drop_first() =~= Seq::<Seq<char>>::empty());
        assert(nonempty(Seq::<Seq<char>>::empty()) == Seq::<Seq<char>>::empty());
        assert(nonempty(seq![j0]) =~= seq![j0]);
        assert(seq![j0] =~= ps);
    } else {
        let n = ps.len() as int;
        lemma_join_front(ps, n);
        let u = ps[0];
        let tail = join_ports(ps.drop_first(), n - 1);
        let rest = seq![','] + tail;
        let j = join_ports(ps, n);
        assert(j =~= u + rest);
        crate::text::lemma_find_char_run(u, rest, 0, ',');
        assert((u + rest).subrange(0, u.len() as int) =~= u);
        assert((u + rest).subrange(u.len() as int + 1, (u + rest).len() as int) =~= tail);
        assert(split_commas(j) == seq![u] + split_commas(tail));
        assert forall|k: int| 0 <= k < ps.drop_first().len() implies (#[trigger] ps.drop_first()[
            k
        ]).len() > 0 by {
            assert(ps.drop_first()[k] == ps[k + 1]);
        }
        assert forall|k: int, x: int|
            0 <= k < ps.drop_first().len() && 0 <= x < ps.drop_first()[k].len()
            implies #[trigger] ps.drop_first()[k][x] != ',' by {
            assert(ps.drop_first()[k] == ps[k + 1]);
            assert(ps[k + 1][x] != ',');
        }
        lemma_split_join(ps.drop_first());
        assert((seq![u] + split_commas(tail)).drop_first() =~= split_commas(tail));
        assert(nonempty(seq![u] + split_commas(tail)) == seq![u] + nonempty(split_commas(tail)));
        assert(seq![u] + ps.drop_first() =~= ps);
    }
}

/// Round trip of the metadata line: writing a port list into the second
/// line and reading it back yields the same list, so an add followed by a
/// remove of the same token restores the recorded ports, and a second add
/// of a present token is a no-op.  Asks that each token is nonempty and
/// comma-free and that the first does not itself begin like the `# `
/// marker, as every `port/proto` token satisfies.
pub proof fn lemma_meta_line_round_trip(ps: Seq<Seq<char>>)
    requires
        forall|k: int| 0 <= k < ps.len() ==> (#[trigger] ps[k]).len() > 0,
        forall|k: int, x: int|
            0 <= k < ps.len() && 0 <= x < ps[k].len() ==> #[trigger] ps[k][x] != ',',
        ps.len() > 0 ==> !(ps[0].len() >= 2 && ps[0][0] == '#' && ps[0][1] == ' '),
    ensures
        ports_of(meta_line(ps)) == ps,
{
    let j = join_ports(ps, ps.len() as int);
    let m = meta_line(ps);
    assert(m.skip(2) =~= j);
    assert(strip_hash(m) == strip_hash(j));
    if ps.len() == 0 {
        assert(j == Seq::<char>::empty());
        assert(strip_hash(j) == j);
    } else {
        if j.len() >= 2 && j[0] == '#' && j[1] == ' ' {
            if ps.len() == 1 {
                assert(j == ps[0]);
                assert(false);
            } else {
                lemma_join_front(ps, ps.len() as int);
                let rest = seq![','] + join_ports(ps.drop_first(), ps.len() - 1);
                assert(j =~= ps[0] + rest);
                if ps[0].len() >= 2 {
                    assert(j[0] == ps[0][0] && j[1] == ps[0][1]);
                    assert(false);
                } else {
                    assert(j[0] == ps[0][0]);
                    assert(j[1] == rest[0]);
                    assert(false);
                }
            }
        }
        assert(strip_hash(j) == j);
    }
    lemma_split_join(ps);
}

/// The contents a fresh allowlist file is created with.
pub open spec fn default_contents() -> Seq<Seq<char>> {
    seq![
        "#-GENERATED- allowed ports managed by mfw-ports "@,
        "# "@,
        "*filter"@,
        ":INPUT ACCEPT [0:0]"@,
        ":allowed-ports - [0:0]"@,
        "-A INPUT -j allowed-ports"@,
    ]
}

/// A copy of `line` with its leading runs of `# ` removed.
pub fn strip_hash_of(line: &Vec<char>) -> (r: Vec<char>)
    ensures
        r@ == strip_hash(line@),
{
    let mut cur = copy_chars(line);
    while cur.len() >= 2 && cur[0] == '#' && cur[1] == ' '
        invariant
            strip_hash(line@) == strip_hash(cur@),
        decreases cur@.len(),
    {
        proof {
            assert(cur@.subrange(2, cur@.len() as int) =~= cur@.skip(2));
        }
        cur = copy_range(&cur, 2, cur.len());
    }
    cur
}

/// The comma-separated non-empty tokens of `s`, mirroring
/// `nonempty(split_commas(..))`.
fn split_ports(s: Vec<char>) -> (r: Vec<Vec<char>>)
    ensures
        lines_view(r@) == nonempty(split_commas(s@)),
    decreases s@.len(),
{
    if s.len() == 0 {
        let r: Vec<Vec<char>> = Vec::new();
        proof {
            assert(lines_view(r@) =~= nonempty(split_commas(s@)));
        }
        return r;
    }
    proof {
        lemma_find_char_bounds(s@, 0, ',');
    }
    let j = find_char_at(&s, 0, ',');
    if j >= s.len() {
        let ghost sv = s@;
        let mut r: Vec<Vec<char>> = Vec::new();
        r.push(s);
        proof {
            assert(lines_view(r@) =~= seq![sv]);
            assert(seq![sv].drop_first() =~= Seq::<Seq<char>>::empty());
            assert(nonempty(Seq::<Seq<char>>::empty()) == Seq::<Seq<char>>::empty());
            assert(nonempty(seq![sv]) =~= seq![sv]);
            assert(nonempty(split_commas(sv)) =~= seq![sv]);
        }
        r
    } else {
        let seg = copy_range(&s, 0, j);
        let rest = copy_range(&s, j + 1, s.len());
        let ghost segv = seg@;
        let ghost restv = rest@;
        let keep: bool = seg.len() > 0;
        let mut r = split_ports(rest);
        proof {
            assert(split_commas(s@) == seq![segv] + split_commas(restv));
            assert((seq![segv] + split_commas(restv)).drop_first() =~= split_commas(restv));
        }
        if keep {
            r.insert(0, seg);
            proof {
                assert(lines_view(r@) =~= seq![segv] + nonempty(split_commas(restv)));
            }
        }
        r
    }
}

/// The ports `ps` joined by commas, mirroring `join_ports`.
fn join_ports_list(ps: &Vec<Vec<char>>) -> (r: Vec<char>)
    ensures
        r@ == join_ports(lines_view(ps@), ps@.len() as int),
{
    let mut out: Vec<char> = Vec::new();
    let n: usize = ps.len();
    let mut i: usize = 0;
    while i < n
        invariant
            n == ps@.len(),
            i <= n,
            out@ == join_ports(lines_view(ps@), i as int),
        decreases n - i,
    {
        if i > 0 {
            out.push(',');
        }
        append_chars(&mut out, &ps[i]);
        proof {
            assert(lines_view(ps@)[i as int] == ps@[i as int]@);
            if i == 0 {
                assert(out@ =~= join_ports(lines_view(ps@), 1));
            } else {
                assert(out@ =~= join_ports(lines_view(ps@), i as int) + seq![','] + lines_view(
                    ps@,
                )[i as int]);
            }
        }
        i = i + 1;
    }
    out
}

/// The metadata line holding exactly the ports `ps`.
fn build_meta_line(ps: &Vec<Vec<char>>) -> (r: Vec<char>)
    ensures
        r@ == meta_line(lines_view(ps@)),
{
    let mut out: Vec<char> = Vec::new();
    out.push('#');
    out.push(' ');
    let joined = join_ports_list(ps);
    append_chars(&mut out, &joined);
    proof {
        assert(out@ =~= meta_line(lines_view(ps@)));
    }
    out
}

/// The generated allow rule for one `port/proto` token.
fn build_rule_line(input: &Vec<char>) -> (r: Vec<char>)
    ensures
        r@ == rule_line(input@),
{
    proof {
        lemma_find_char_bounds(input@, 0, '/');
    }
    let j = find_char_at(input, 0, '/');
    let port = copy_range(input, 0, j);
    let mut out = chars_of("-A allowed-ports -p ");
    if j >= input.len() {
        let proto = chars_of("tcp");
        append_chars(&mut out, &proto);
    } else {
        proof {
            lemma_find_char_bounds(input@, j as int + 1, '/');
        }
        let k = find_char_at(input, j + 1, '/');
        let proto = copy_range(input, j + 1, k);
        append_chars(&mut out, &proto);
    }
    append_str(&mut out, " --dport ");
    append_chars(&mut out, &port);
    append_str(&mut out, " -j ACCEPT");
    proof {
        assert(out@ =~= rule_line(input@));
    }
    out
}

/// The removal marker for one `port/proto` token.
fn build_removal_needle(input: &Vec<char>) -> (r: Vec<char>)
    ensures
        r@ == removal_needle(input@),
{
    proof {
        lemma_find_char_bounds(input@, 0, '/');
    }
    let j = find_char_at(input, 0, '/');
    let port = copy_range(input, 0, j);
    let mut out = chars_of("-p ");
    if j >= input.len() {
        let proto = chars_of("tcp");
        append_chars(&mut out, &proto);
    } else {
        proof {
            lemma_find_char_bounds(input@, j as int + 1, '/');
        }
        let k = find_char_at(input, j + 1, '/');
        let proto = copy_range(input, j + 1, k);
        append_chars(&mut out, &proto);
    }
    append_str(&mut out, " --dport ");
    append_chars(&mut out, &port);
    append_str(&mut out, " -j ACCEPT");
    proof {
        assert(out@ =~= removal_needle(input@));
    }
    out
}

/// Removing the first match at a known position keeps everything else.
proof fn lemma_remove_first_at(ps: Seq<Seq<char>>, x: Seq<char>, pos: int)
    requires
        0 <= pos < ps.len(),
        ps[pos] == x,
        forall|k: int| 0 <= k < pos ==> ps[k] != x,
    ensures
        remove_first(ps, x) == ps.subrange(0, pos) + ps.subrange(pos + 1, ps.len() as int),
    decreases pos,
{
    if pos == 0 {
        assert(remove_first(ps, x) == ps.drop_first());
        assert(ps.drop_first() =~= ps.subrange(0, 0) + ps.subrange(1, ps.len() as int));
    } else {
        assert(ps[0] != x);
        lemma_remove_first_at(ps.drop_first(), x, pos - 1);
        assert(ps.drop_first().subrange(0, pos - 1) =~= ps.subrange(1, pos));
        assert(ps.drop_first().subrange(pos, ps.drop_first().len() as int) =~= ps.subrange(
            pos + 1,
            ps.len() as int,
        ));
        assert(seq![ps[0]] + (ps.subrange(1, pos) + ps.subrange(pos + 1, ps.len() as int))
            =~= ps.subrange(0, pos) + ps.subrange(pos + 1, ps.len() as int));
    }
}

/// The in-memory contents of the allowlist file, line by line.
pub struct RuleFile {
    pub lines: Vec<Vec<char>>,
}

impl View for RuleFile {
    type V = Seq<Seq<char>>;

    open spec fn view(&self) -> Seq<Seq<char>> {
        lines_view(self.lines@)
    }
}

impl RuleFile {
    /// Wraps existing contents, or creates the generated default contents
    /// when the caller has none (the file did not exist yet).
    pub fn new(existing: Option<Vec<Vec<char>>>) -> (r: RuleFile)
        ensures
            match existing {
                Some(ls) => r@ == lines_view(ls@),
                None => r@ == default_contents(),
            },
    {
        match existing {
            Some(ls) => RuleFile { lines: ls },
            None => {
                let mut lines: Vec<Vec<char>> = Vec::new();
                lines.push(chars_of("#-GENERATED- allowed ports managed by mfw-ports "));
                lines.push(chars_of("# "));
                lines.push(chars_of("*filter"));
                lines.push(chars_of(":INPUT ACCEPT [0:0]"));
                lines.push(chars_of(":allowed-ports - [0:0]"));
                lines.push(chars_of("-A INPUT -j allowed-ports"));
                proof {
                    assert(lines_view(lines@) =~= default_contents());
                }
                RuleFile { lines }
            },
        }
    }

    /// The metadata of the port list: the second line without its leading
    /// `# `, or `None` when the file is too short to hold one.
    pub fn list_ports(&self) -> (r: Option<Vec<char>>)
        ensures
            match r {
                Some(m) => self@.len() > 1 && m@ == strip_hash(self@[1]),
                None => self@.len() <= 1,
            },
    {
        if self.lines.len() > 1 {
            proof {
                assert(self@[1] == self.lines@[1]@);
            }
            Some(strip_hash_of(&self.lines[1]))
        } else {
            None
        }
    }

    /// Adds `input` to the port list unless it is already there: the
    /// metadata line is rewritten to hold the enlarged list sorted
    /// lexicographically, and the generated allow rule for `input` is
    /// appended.  Returns whether the contents changed.
    pub fn add_port(&mut self, input: &Vec<char>) -> (changed: bool)
        requires
            old(self)@.len() >= 2,
        ensures
            ({
                let ps = ports_of(old(self)@[1]);
                if ps.contains(input@) {
                    changed == false && final(self)@ == old(self)@
                } else {
                    changed == true && final(self)@ == old(self)@.update(
                        1,
                        meta_line(sort_view(ps.push(input@))),
                    ).push(rule_line(input@))
                }
            }),
    {
        proof {
            assert(self@[1] == self.lines@[1]@);
        }
        let stripped = strip_hash_of(&self.lines[1]);
        let ports = split_ports(stripped);
        if list_contains(&ports, input) {
            return false;
        }
        let mut grown = ports;
        let ghost grown0 = lines_view(grown@);
        let ic = copy_chars(input);
        let ghost icv = ic@;
        grown.push(ic);
        proof {
            assert(lines_view(grown@) =~= grown0.push(icv));
        }
        let sorted = sort_lines(&grown);
        let meta = build_meta_line(&sorted);
        let rule = build_rule_line(input);
        self.lines.set(1, meta);
        self.lines.push(rule);
        proof {
            assert(final(self)@ =~= old(self)@.update(
                1,
                meta_line(sort_view(ports_of(old(self)@[1]).push(input@))),
            ).push(rule_line(input@)));
        }
        true
    }

    /// Removes `input` from the port list if present: the metadata line is
    /// rewritten without it, and the generated allow rule of exactly this
    /// token — its protocol and port together — is dropped; the rule of
    /// the same port under another protocol stays.  Returns whether the
    /// contents changed.
    pub fn remove_port(&mut self, input: &Vec<char>) -> (changed: bool)
        requires
            old(self)@.len() >= 2,
        ensures
            ({
                let ps = ports_of(old(self)@[1]);
                if !ps.contains(input@) {
                    changed == false && final(self)@ == old(self)@
                } else {
                    changed == true && final(self)@ == retained(
                        old(self)@.update(1, meta_line(remove_first(ps, input@))),
                        removal_needle(input@),
                    )
                }
            }),
    {
        proof {
            assert(self@[1] == self.lines@[1]@);
        }
        let stripped = strip_hash_of(&self.lines[1]);
        let ports = split_ports(stripped);
        let n: usize = ports.len();
        let mut pos: usize = 0;
        while pos < n && !seq_eq(&ports[pos], input)
            invariant
                n == ports@.len(),
                pos <= n,
                forall|k: int| 0 <= k < pos ==> lines_view(ports@)[k] != input@,
            decreases n - pos,
        {
            pos = pos + 1;
        }
        if pos >= n {
            proof {
                assert(forall|k: int|
                    0 <= k < lines_view(ports@).len() ==> lines_view(ports@)[k] != input@);
                assert(!ports_of(old(self)@[1]).contains(input@));
            }
            return false;
        }
        proof {
            assert(lines_view(ports@)[pos as int] == input@);
            lemma_remove_first_at(lines_view(ports@), input@, pos as int);
        }
        let mut kept: Vec<Vec<char>> = Vec::new();
        let mut k: usize = 0;
        while k < n
            invariant
                n == ports@.len(),
                pos < n,
                k <= n,
                lines_view(kept@) == lines_view(ports@).subrange(
                    0,
                    (if k <= pos {
                        k as int
                    } else {
                        pos as int
                    }),
                ) + (if k <= pos {
                    Seq::<Seq<char>>::empty()
                } else {
                    lines_view(ports@).subrange(pos + 1, k as int)
                }),
            decreases n - k,
        {
            if k != pos {
                let ghost prev = kept@;
                let c = copy_chars(&ports[k]);
                let ghost cv = c@;
                kept.push(c);
                proof {
                    assert(cv == lines_view(ports@)[k as int]);
                    assert(lines_view(kept@) =~= lines_view(prev).push(cv));
                    if k < pos {
                        assert(lines_view(kept@) =~= lines_view(ports@).subrange(
                            0,
                            k as int + 1,
                        ) + Seq::<Seq<char>>::empty());
                    } else {
                        assert(lines_view(kept@) =~= lines_view(ports@).subrange(
                            0,
                            pos as int,
                        ) + lines_view(ports@).subrange(pos + 1, k as int + 1));
                    }
                }
            } else {
                proof {
                    assert(lines_view(kept@) =~= lines_view(ports@).subrange(0, pos as int)
                        + lines_view(ports@).subrange(pos + 1, pos as int + 1));
                }
            }
            k = k + 1;
        }
        proof {
            assert(lines_view(kept@) =~= remove_first(lines_view(ports@), input@));
        }
        let meta = build_meta_line(&kept);
        let needle = build_removal_needle(input);
        self.lines.set(1, meta);
        let ghost updated = lines_view(self.lines@);
        proof {
            assert(updated =~= old(self)@.update(
                1,
                meta_line(remove_first(ports_of(old(self)@[1]), input@)),
            ));
        }
        let mut filtered: Vec<Vec<char>> = Vec::new();
        let ln: usize = self.lines.len();
        let mut li: usize = 0;
        while li < ln
            invariant
                ln == self.lines@.len(),
                li <= ln,
                updated == lines_view(self.lines@),
                needle@ == removal_needle(input@),
                lines_view(filtered@) == retain_upto(updated, needle@, li as int),
            decreases ln - li,
        {
            if !has_substring(&self.lines[li], &needle) {
                let ghost prev = filtered@;
                let c = copy_chars(&self.lines[li]);
                let ghost cv = c@;
                filtered.push(c);
                proof {
                    assert(cv == updated[li as int]);
                    assert(lines_view(filtered@) =~= lines_view(prev).push(cv));
                    assert(lines_view(filtered@) =~= retain_upto(
                        updated,
                        needle@,
                        li as int + 1,
                    ));
                }
            } else {
                proof {
                    assert(lines_view(filtered@) =~= retain_upto(
                        updated,
                        needle@,
                        li as int + 1,
                    ));
                }
            }
            li = li + 1;
        }
        self.lines = filtered;
        proof {
            assert(final(self)@ =~= retained(
                old(self)@.update(
                    1,
                    meta_line(remove_first(ports_of(old(self)@[1]), input@)),
                ),
                removal_needle(input@),
            ));
        }
        true
    }
}

} // verus!
