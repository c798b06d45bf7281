//! The script compiler: walks an ordered statement sequence while tracking
//! the active table and the chains declared so far, and emits the teardown,
//! bootstrap and per-rule command blocks of the generated script.
//!
//! User-defined chains are emitted under a namespace prefix, and chain
//! tokens inside rule bodies are rewritten to the prefixed form, so that
//! generated state never collides with the backend's built-in chains.

use vstd::prelude::*;

use crate::text::chars_of;
use crate::text::copy_chars;
use crate::text::copy_range;
use crate::text::append_chars;
use crate::text::append_str;
use crate::text::is_space;
use crate::text::is_space_char;
use crate::text::lemma_token_end_bounds;
use crate::text::lines_view;
use crate::text::list_contains;
use crate::text::seq_eq;
use crate::text::strip_leading;
use crate::text::strip_leading_char;
use crate::text::token_end;
use crate::text::token_end_at;

verus! {

/// One table of the packet filter together with its built-in chains.
pub struct TableDef {
    pub name: Vec<char>,
    pub chains: Vec<Vec<char>>,
}

/// Why a compile pass was aborted; `line` is the index of the offending
/// statement in the input sequence.
#[derive(Clone, Copy, Debug, PartialEq, Eq, Structural)]
pub enum CompileError {
    /// A rule body appeared before any table switch, so its table context
    /// is undefined.
    UndefinedTableContext { line: usize },
    /// A chain declaration whose name token is empty.
    MalformedChainDeclaration { line: usize },
}

/// True when the statement is a comment (or any line led by `#`; inclusion
/// directives never reach the compiler, the loader expands them).
pub open spec fn is_comment(l: Seq<char>) -> bool {
    l.len() > 0 && l[0] == '#'
}

/// True when the statement switches the active table.
pub open spec fn is_table_switch(l: Seq<char>) -> bool {
    l.len() > 0 && l[0] == '*'
}

/// True when the statement declares a chain.
pub open spec fn is_chain_decl(l: Seq<char>) -> bool {
    l.len() > 0 && l[0] == ':'
}

/// True when the statement is a rule body.
pub open spec fn is_rule_body(l: Seq<char>) -> bool {
    l.len() > 0 && l[0] == '-'
}

/// The table name of a table-switch statement: everything after `*`.
pub open spec fn table_of(l: Seq<char>) -> Seq<char> {
    l.subrange(1, l.len() as int)
}

/// The chain name of a chain declaration: its first whitespace-delimited
/// token, with every leading `:` removed.
pub open spec fn chain_name_of(l: Seq<char>) -> Seq<char> {
    strip_leading(l.subrange(0, token_end(l, 0)), ':')
}

/// The active table after the first `i` statements: the argument of the
/// most recent table switch, or `None` when none was seen yet.
pub open spec fn table_ctx(lines: Seq<Seq<char>>, i: int) -> Option<Seq<char>>
    decreases i,
{
    if i <= 0 {
        None
    } else if is_table_switch(lines[i - 1]) {
        Some(table_of(lines[i - 1]))
    } else {
        table_ctx(lines, i - 1)
    }
}

/// The chain names declared by the first `i` statements, in order of first
/// declaration and without repetition.
pub open spec fn declared(lines: Seq<Seq<char>>, i: int) -> Seq<Seq<char>>
    decreases i,
{
    if i <= 0 {
        Seq::<Seq<char>>::empty()
    } else {
        let d = declared(lines, i - 1);
        let l = lines[i - 1];
        if is_chain_decl(l) {
            if d.contains(chain_name_of(l)) {
                d
            } else {
                d.push(chain_name_of(l))
            }
        } else {
            d
        }
    }
}

/// The built-in chains of table `t`, or `None` when `t` is not a table the
/// specification knows.
pub open spec fn chains_for(tables: Seq<TableDef>, t: Seq<char>) -> Option<Seq<Seq<char>>>
    decreases tables.len(),
{
    if tables.len() == 0 {
        None
    } else if tables[0].name@ == t {
        Some(lines_view(tables[0].chains@))
    } else {
        chains_for(tables.drop_first(), t)
    }
}

/// The error raised by statement `i`, if any: a rule body before any table
/// switch, or a chain declaration with an empty name token.
pub open spec fn line_error(lines: Seq<Seq<char>>, i: int) -> Option<CompileError> {
    let l = lines[i];
    if is_rule_body(l) && table_ctx(lines, i) is None {
        Some(CompileError::UndefinedTableContext { line: i as usize })
    } else if is_chain_decl(l) && chain_name_of(l).len() == 0 {
        Some(CompileError::MalformedChainDeclaration { line: i as usize })
    } else {
        None
    }
}

/// The first error among the first `i` statements, if any.
pub open spec fn first_error(lines: Seq<Seq<char>>, i: int) -> Option<CompileError>
    decreases i,
{
    if i <= 0 {
        None
    } else if first_error(lines, i - 1) is Some {
        first_error(lines, i - 1)
    } else {
        line_error(lines, i - 1)
    }
}

/// The token `t`, replaced by its namespaced form when it names a chain
/// declared so far, and kept as it is otherwise.
pub open spec fn subst_token(t: Seq<char>, defined: Seq<Seq<char>>, prefix: Seq<char>) -> Seq<
    char,
> {
    if defined.contains(t) {
        prefix + t
    } else {
        t
    }
}

/// The rewritten tail of a rule body from position `i` on: whitespace is
/// copied unchanged, and every whitespace-delimited token is passed through
/// `subst_token`, so only whole-token matches of a declared chain name are
/// namespaced, never substrings of a longer token.
pub open spec fn rewrite_from(
    s: Seq<char>,
    i: int,
    defined: Seq<Seq<char>>,
    prefix: Seq<char>,
) -> Seq<char>
    decreases s.len() - i,
    when 0 <= i
    via rewrite_from_dec
{
    if i >= s.len() {
        Seq::<char>::empty()
    } else if is_space(s[i]) {
        seq![s[i]] + rewrite_from(s, i + 1, defined, prefix)
    } else {
        subst_token(s.subrange(i, token_end(s, i)), defined, prefix) + rewrite_from(
            s,
            token_end(s, i),
            defined,
            prefix,
        )
    }
}

#[via_fn]
proof fn rewrite_from_dec(s: Seq<char>, i: int, defined: Seq<Seq<char>>, prefix: Seq<char>) {
    if 0 <= i < s.len() && !is_space(s[i]) {
        lemma_token_end_bounds(s, i);
    }
}

/// The whole rule body rewritten: `rewrite_from` starting at the front.
pub open spec fn rewrite_view(s: Seq<char>, defined: Seq<Seq<char>>, prefix: Seq<char>) -> Seq<
    char,
> {
    rewrite_from(s, 0, defined, prefix)
}

fn rewrite_worker(line: &Vec<char>, i: usize, defined: &Vec<Vec<char>>, prefix: &Vec<char>) -> (r:
    Vec<char>)
    requires
        i <= line@.len(),
    ensures
        r@ == rewrite_from(line@, i as int, lines_view(defined@), prefix@),
    decreases line@.len() - i,
{
    if i >= line.len() {
        Vec::new()
    } else if is_space_char(line[i]) {
        let mut rest = rewrite_worker(line, i + 1, defined, prefix);
        rest.insert(0, line[i]);
        proof {
            assert(rest@ =~= seq![line@[i as int]] + rewrite_from(
                line@,
                i as int + 1,
                lines_view(defined@),
                prefix@,
            ));
        }
        rest
    } else {
        proof {
            lemma_token_end_bounds(line@, i as int);
        }
        let j = token_end_at(line, i);
        let tok = copy_range(line, i, j);
        let mut out: Vec<char>;
        if list_contains(defined, &tok) {
            out = copy_chars(prefix);
            append_chars(&mut out, &tok);
        } else {
            out = tok;
        }
        let mut rest = rewrite_worker(line, j, defined, prefix);
        out.append(&mut rest);
        out
    }
}

/// A copy of the rule body `line` in which every whitespace-delimited token
/// that names a chain in `defined` is replaced by `prefix` + token, and
/// every other character is kept unchanged.
pub fn rewrite_rule_body(line: &Vec<char>, defined: &Vec<Vec<char>>, prefix: &Vec<char>) -> (r:
    Vec<char>)
    ensures
        r@ == rewrite_view(line@, lines_view(defined@), prefix@),
{
    rewrite_worker(line, 0, defined, prefix)
}

/// The chain name of the chain-declaration statement `line`.
pub fn chain_name(line: &Vec<char>) -> (r: Vec<char>)
    ensures
        r@ == chain_name_of(line@),
{
    let j = token_end_at(line, 0);
    let tok = copy_range(line, 0, j);
    strip_leading_char(&tok, ':')
}

/// Index of the table named `t` in `tables`, mirroring `chains_for`.
fn find_table(tables: &Vec<TableDef>, t: &Vec<char>) -> (r: Option<usize>)
    ensures
        match r {
            Some(k) => k < tables@.len() && tables@[k as int].name@ == t@ && chains_for(
                tables@,
                t@,
            ) == Some(lines_view(tables@[k as int].chains@)),
            None => chains_for(tables@, t@) is None,
        },
{
    let n: usize = tables.len();
    let mut k: usize = 0;
    proof {
        assert(tables@.skip(0) =~= tables@);
    }
    while k < n
        invariant
            n == tables@.len(),
            k <= n,
            chains_for(tables@, t@) == chains_for(tables@.skip(k as int), t@),
            forall|k2: int| 0 <= k2 < k ==> tables@[k2].name@ != t@,
        decreases n - k,
    {
        if seq_eq(&tables[k].name, t) {
            proof {
                assert(tables@.skip(k as int)[0] == tables@[k as int]);
            }
            return Some(k);
        }
        proof {
            assert(tables@.skip(k as int)[0] == tables@[k as int]);
            assert(tables@.skip(k as int).drop_first() =~= tables@.skip(k as int + 1));
        }
        k = k + 1;
    }
    proof {
        assert(tables@.skip(n as int).len() == 0);
    }
    None
}

/// The teardown script: a fixed header, `set -x` when verbose, and a shell
/// loop that, for every table it names, deletes the jump rules into
/// prefixed chains and then flushes and deletes every prefixed chain.
pub open spec fn uninstall_view(verbose: bool, prefix: Seq<char>) -> Seq<char> {
    "#!/usr/bin/bash\n#\n# MFW Generated\n#\n\n"@ + (if verbose {
        "set -x"@
    } else {
        Seq::<char>::empty()
    }) + "\n# Clean up\nfor t in filter nat mangle raw security;do iptables -S -t$t|grep \"\\-j "@
        + prefix
        + "\"|sed 's/-A/-D/'|while read r;do iptables -t$t $r;done;iptables -S -t$t|grep \"\\-N "@
        + prefix + "\"|cut -d\\  -f2|while read c;do iptables -t$t -F $c&&iptables -t$t -X$c;done;done\n\n"@
}

/// The two bootstrap commands for one built-in chain `c` of table `t`:
/// create its namespaced counterpart and append a jump rule into it.
pub open spec fn chain_jump_block(t: Seq<char>, prefix: Seq<char>, c: Seq<char>) -> Seq<char> {
    "iptables -t "@ + t + " -N "@ + prefix + c + "\n"@ + "iptables -t "@ + t + " -A "@ + c
        + " -j "@ + prefix + c + "\n"@
}

/// The bootstrap commands of the first `i` chains of table `t`, in order.
pub open spec fn chain_jumps_upto(
    t: Seq<char>,
    chains: Seq<Seq<char>>,
    prefix: Seq<char>,
    i: int,
) -> Seq<char>
    decreases i,
{
    if i <= 0 {
        Seq::<char>::empty()
    } else {
        chain_jumps_upto(t, chains, prefix, i - 1) + chain_jump_block(t, prefix, chains[i - 1])
    }
}

/// The bootstrap commands of the first `i` tables, in order.
pub open spec fn table_jumps_upto(tables: Seq<TableDef>, prefix: Seq<char>, i: int) -> Seq<char>
    decreases i,
{
    if i <= 0 {
        Seq::<char>::empty()
    } else {
        table_jumps_upto(tables, prefix, i - 1) + chain_jumps_upto(
            tables[i - 1].name@,
            lines_view(tables[i - 1].chains@),
            prefix,
            lines_view(tables[i - 1].chains@).len() as int,
        )
    }
}

/// The bootstrap/install script: teardown first, then for every built-in
/// chain of every table a namespaced counterpart and a jump rule into it.
pub open spec fn clean_view(verbose: bool, tables: Seq<TableDef>, prefix: Seq<char>) -> Seq<
    char,
> {
    uninstall_view(verbose, prefix) + "# Create prefixed chains and setup jumps\n"@
        + table_jumps_upto(tables, prefix, tables.len() as int)
}

/// The idempotent (re)creation commands for a user chain `c` under table
/// `t`: flush if present, delete if present, create, all on the namespaced
/// name.
pub open spec fn creation_block(t: Seq<char>, prefix: Seq<char>, c: Seq<char>) -> Seq<char> {
    "iptables -t "@ + t + " -F "@ + prefix + c + " 2>/dev/null || true\n"@ + "iptables -t "@ + t
        + " -X "@ + prefix + c + " 2>/dev/null || true\n"@ + "iptables -t "@ + t + " -N "@ + prefix
        + c + "\n"@
}

/// What statement `i` contributes to the per-rule section of the script:
/// comments are copied, table switches are silent, a chain declaration
/// emits a creation block when its name is neither built-in for the active
/// table nor already declared, and a rule body is emitted against the
/// active table with declared chain tokens namespaced.
///
/// Policy decision: a chain declared under a table the specification does
/// not know is treated conservatively — nothing is known of that table's
/// built-in chains, so a namespaced chain is still created (unless the
/// name was declared before).  A declaration before any table switch
/// cannot name a table to create under, so it is recorded without output.
pub open spec fn line_output(
    lines: Seq<Seq<char>>,
    tables: Seq<TableDef>,
    prefix: Seq<char>,
    i: int,
) -> Seq<char> {
    let l = lines[i];
    if is_comment(l) {
        l + "\n"@
    } else if is_table_switch(l) {
        Seq::<char>::empty()
    } else if is_chain_decl(l) {
        match table_ctx(lines, i) {
            Some(t) => match chains_for(tables, t) {
                Some(builtins) => if !builtins.contains(chain_name_of(l)) && !declared(
                    lines,
                    i,
                ).contains(chain_name_of(l)) {
                    creation_block(t, prefix, chain_name_of(l))
                } else {
                    Seq::<char>::empty()
                },
                None => if !declared(lines, i).contains(chain_name_of(l)) {
                    creation_block(t, prefix, chain_name_of(l))
                } else {
                    Seq::<char>::empty()
                },
            },
            None => Seq::<char>::empty(),
        }
    } else if is_rule_body(l) {
        match table_ctx(lines, i) {
            Some(t) => "iptables -t "@ + t + " "@ + rewrite_view(l, declared(lines, i), prefix)
                + "\n"@,
            None => Seq::<char>::empty(),
        }
    } else {
        Seq::<char>::empty()
    }
}

/// The per-rule section for the first `i` statements, in order.
pub open spec fn rules_output(
    lines: Seq<Seq<char>>,
    tables: Seq<TableDef>,
    prefix: Seq<char>,
    i: int,
) -> Seq<char>
    decreases i,
{
    if i <= 0 {
        Seq::<char>::empty()
    } else {
        rules_output(lines, tables, prefix, i - 1) + line_output(lines, tables, prefix, i - 1)
    }
}

/// The whole apply script: bootstrap/install, a separator, then the
/// compiled per-rule commands in statement order.
pub open spec fn apply_view(
    verbose: bool,
    lines: Seq<Seq<char>>,
    tables: Seq<TableDef>,
    prefix: Seq<char>,
) -> Seq<char> {
    clean_view(verbose, tables, prefix) + "\n# Apply rules\n"@ + rules_output(
        lines,
        tables,
        prefix,
        lines.len() as int,
    )
}

/// The uninstall-only script: the teardown block alone.
pub fn generate_uninstall_script(verbose: bool, prefix: &Vec<char>) -> (r: Vec<char>)
    ensures
        r@ == uninstall_view(verbose, prefix@),
{
    let mut out = chars_of("#!/usr/bin/bash\n#\n# MFW Generated\n#\n\n");
    if verbose {
        append_str(&mut out, "set -x");
    }
    append_str(
        &mut out,
        "\n# Clean up\nfor t in filter nat mangle raw security;do iptables -S -t$t|grep \"\\-j ",
    );
    append_chars(&mut out, prefix);
    append_str(
        &mut out,
        "\"|sed 's/-A/-D/'|while read r;do iptables -t$t $r;done;iptables -S -t$t|grep \"\\-N ",
    );
    append_chars(&mut out, prefix);
    append_str(
        &mut out,
        "\"|cut -d\\  -f2|while read c;do iptables -t$t -F $c&&iptables -t$t -X$c;done;done\n\n",
    );
    proof {
        assert(out@ =~= uninstall_view(verbose, prefix@));
    }
    out
}

/// The bootstrap/install script: teardown, then namespaced counterparts of
/// every built-in chain with jump rules into them, in the given table
/// order.
pub fn generate_clean_script(verbose: bool, tables: &Vec<TableDef>, prefix: &Vec<char>) -> (r:
    Vec<char>)
    ensures
        r@ == clean_view(verbose, tables@, prefix@),
{
    let mut out = generate_uninstall_script(verbose, prefix);
    append_str(&mut out, "# Create prefixed chains and setup jumps\n");
    let ghost base = uninstall_view(verbose, prefix@) + "# Create prefixed chains and setup jumps\n"@;
    proof {
        assert(out@ =~= base + table_jumps_upto(tables@, prefix@, 0));
    }
    let nt: usize = tables.len();
    let mut ti: usize = 0;
    while ti < nt
        invariant
            nt == tables@.len(),
            ti <= nt,
            out@ == base + table_jumps_upto(tables@, prefix@, ti as int),
        decreases nt - ti,
    {
        let ghost tbase = out@;
        let ghost tname = tables@[ti as int].name@;
        let ghost tchains = lines_view(tables@[ti as int].chains@);
        let nc: usize = tables[ti].chains.len();
        let mut ci: usize = 0;
        while ci < nc
            invariant
                nt == tables@.len(),
                ti < nt,
                nc == tables@[ti as int].chains@.len(),
                ci <= nc,
                tname == tables@[ti as int].name@,
                tchains == lines_view(tables@[ti as int].chains@),
                out@ == tbase + chain_jumps_upto(tname, tchains, prefix@, ci as int),
            decreases nc - ci,
        {
            append_str(&mut out, "iptables -t ");
            append_chars(&mut out, &tables[ti].name);
            append_str(&mut out, " -N ");
            append_chars(&mut out, prefix);
            append_chars(&mut out, &tables[ti].chains[ci]);
            append_str(&mut out, "\n");
            append_str(&mut out, "iptables -t ");
            append_chars(&mut out, &tables[ti].name);
            append_str(&mut out, " -A ");
            append_chars(&mut out, &tables[ti].chains[ci]);
            append_str(&mut out, " -j ");
            append_chars(&mut out, prefix);
            append_chars(&mut out, &tables[ti].chains[ci]);
            append_str(&mut out, "\n");
            proof {
                assert(tchains[ci as int] == tables@[ti as int].chains@[ci as int]@);
                assert(out@ =~= tbase + chain_jumps_upto(
                    tname,
                    tchains,
                    prefix@,
                    ci as int + 1,
                ));
            }
            ci = ci + 1;
        }
        proof {
            assert(out@ =~= base + table_jumps_upto(tables@, prefix@, ti as int + 1));
        }
        ti = ti + 1;
    }
    proof {
        assert(out@ =~= clean_view(verbose, tables@, prefix@));
    }
    out
}

/// The view of an optional table name.
pub open spec fn table_view(o: Option<Vec<char>>) -> Option<Seq<char>> {
    match o {
        Some(t) => Some(t@),
        None => None,
    }
}

/// Once some prefix of the statements holds an error, every longer prefix
/// reports that same first error.
pub proof fn lemma_first_error_persists(lines: Seq<Seq<char>>, i: int, j: int)
    requires
        0 <= i <= j,
        first_error(lines, i) is Some,
    ensures
        first_error(lines, j) == first_error(lines, i),
    decreases j - i,
{
    if j > i {
        lemma_first_error_persists(lines, i, j - 1);
    }
}

/// Appends the idempotent creation block for chain `name` under table `t`.
fn emit_creation(out: &mut Vec<char>, t: &Vec<char>, prefix: &Vec<char>, name: &Vec<char>)
    ensures
        final(out)@ == old(out)@ + creation_block(t@, prefix@, name@),
{
    append_str(out, "iptables -t ");
    append_chars(out, t);
    append_str(out, " -F ");
    append_chars(out, prefix);
    append_chars(out, name);
    append_str(out, " 2>/dev/null || true\n");
    append_str(out, "iptables -t ");
    append_chars(out, t);
    append_str(out, " -X ");
    append_chars(out, prefix);
    append_chars(out, name);
    append_str(out, " 2>/dev/null || true\n");
    append_str(out, "iptables -t ");
    append_chars(out, t);
    append_str(out, " -N ");
    append_chars(out, prefix);
    append_chars(out, name);
    append_str(out, "\n");
    proof {
        assert(out@ =~= old(out)@ + creation_block(t@, prefix@, name@));
    }
}

/// The apply script for `rules`, or the first compile error: a rule body
/// before any table switch is refused as `UndefinedTableContext`, and a
/// chain declaration with an empty name token as
/// `MalformedChainDeclaration`; no partial script is returned.  A chain
/// declared under a table the specification does not know is still
/// created under its namespaced name (the conservative policy, see
/// `line_output`); one declared before any table switch is recorded for
/// rewriting but creates nothing.
#[verifier::rlimit(100)]
pub fn generate_script(
    verbose: bool,
    rules: &Vec<Vec<char>>,
    tables: &Vec<TableDef>,
    prefix: &Vec<char>,
) -> (r: Result<Vec<char>, CompileError>)
    ensures
        match r {
            Ok(s) => first_error(lines_view(rules@), rules@.len() as int) is None && s@
                == apply_view(verbose, lines_view(rules@), tables@, prefix@),
            Err(e) => first_error(lines_view(rules@), rules@.len() as int) == Some(e),
        },
{
    let ghost lv = lines_view(rules@);
    let mut out = generate_clean_script(verbose, tables, prefix);
    append_str(&mut out, "\n# Apply rules\n");
    let ghost base = clean_view(verbose, tables@, prefix@) + "\n# Apply rules\n"@;
    let mut table: Option<Vec<char>> = None;
    let mut defined: Vec<Vec<char>> = Vec::new();
    let n: usize = rules.len();
    let mut i: usize = 0;
    proof {
        assert(out@ =~= base + rules_output(lv, tables@, prefix@, 0));
        assert(lines_view(defined@) =~= declared(lv, 0));
    }
    while i < n
        invariant
            n == rules@.len(),
            i <= n,
            lv == lines_view(rules@),
            base == clean_view(verbose, tables@, prefix@) + "\n# Apply rules\n"@,
            first_error(lv, i as int) is None,
            table_view(table) == table_ctx(lv, i as int),
            lines_view(defined@) == declared(lv, i as int),
            out@ == base + rules_output(lv, tables@, prefix@, i as int),
        decreases n - i,
    {
        let ghost old_out = out@;
        let line_len: usize = rules[i].len();
        proof {
            assert(lv[i as int] == rules@[i as int]@);
        }
        if line_len > 0 {
            let c0: char = rules[i][0];
            if c0 == '#' {
                append_chars(&mut out, &rules[i]);
                append_str(&mut out, "\n");
                proof {
                    assert(out@ =~= old_out + line_output(lv, tables@, prefix@, i as int));
                }
            } else if c0 == '*' {
                table = Some(copy_range(&rules[i], 1, line_len));
                proof {
                    assert(table_view(table) == Some(table_of(lv[i as int])));
                }
            } else if c0 == ':' {
                let name = chain_name(&rules[i]);
                if name.len() == 0 {
                    proof {
                        assert(line_error(lv, i as int) == Some(
                            CompileError::MalformedChainDeclaration { line: i },
                        ));
                        lemma_first_error_persists(lv, i as int + 1, lv.len() as int);
                    }
                    return Err(CompileError::MalformedChainDeclaration { line: i });
                }
                let already = list_contains(&defined, &name);
                match &table {
                    Some(t) => {
                        match find_table(tables, t) {
                            Some(k) => {
                                let builtin = list_contains(&tables[k].chains, &name);
                                if !builtin && !already {
                                    emit_creation(&mut out, t, prefix, &name);
                                    proof {
                                        assert(out@ =~= old_out + creation_block(
                                            t@,
                                            prefix@,
                                            name@,
                                        ));
                                    }
                                }
                            },
                            None => {
                                if !already {
                                    emit_creation(&mut out, t, prefix, &name);
                                    proof {
                                        assert(out@ =~= old_out + creation_block(
                                            t@,
                                            prefix@,
                                            name@,
                                        ));
                                    }
                                }
                            },
                        }
                    },
                    None => {},
                }
                if !already {
                    let ghost dprev = defined@;
                    defined.push(name);
                    proof {
                        assert(lines_view(defined@) =~= lines_view(dprev).push(
                            chain_name_of(lv[i as int]),
                        ));
                    }
                }
                proof {
                    assert(out@ =~= old_out + line_output(lv, tables@, prefix@, i as int));
                }
            } else if c0 == '-' {
                match &table {
                    Some(t) => {
                        append_str(&mut out, "iptables -t ");
                        append_chars(&mut out, t);
                        append_str(&mut out, " ");
                        let rw = rewrite_rule_body(&rules[i], &defined, prefix);
                        append_chars(&mut out, &rw);
                        append_str(&mut out, "\n");
                        proof {
                            assert(out@ =~= old_out + line_output(
                                lv,
                                tables@,
                                prefix@,
                                i as int,
                            ));
                        }
                    },
                    None => {
                        proof {
                            assert(line_error(lv, i as int) == Some(
                                CompileError::UndefinedTableContext { line: i },
                            ));
                            lemma_first_error_persists(lv, i as int + 1, lv.len() as int);
                        }
                        return Err(CompileError::UndefinedTableContext { line: i });
                    },
                }
            } else {
                proof {
                    assert(line_output(lv, tables@, prefix@, i as int) =~= Seq::<char>::empty());
                    assert(out@ =~= old_out + line_output(lv, tables@, prefix@, i as int));
                }
            }
        } else {
            proof {
                assert(line_output(lv, tables@, prefix@, i as int) =~= Seq::<char>::empty());
                assert(out@ =~= old_out + line_output(lv, tables@, prefix@, i as int));
            }
        }
        proof {
            assert(rules_output(lv, tables@, prefix@, i as int + 1) == rules_output(
                lv,
                tables@,
                prefix@,
                i as int,
            ) + line_output(lv, tables@, prefix@, i as int));
            assert(out@ =~= base + rules_output(lv, tables@, prefix@, i as int + 1));
        }
        i = i + 1;
    }
    proof {
        assert(out@ =~= apply_view(verbose, lv, tables@, prefix@));
    }
    Ok(out)
}

/// The static table specification of the backend: each table with its
/// ordered built-in chains, tables in lexicographic order so that script
/// generation is deterministic.
pub fn default_tables() -> (r: Vec<TableDef>)
    ensures
        r@.len() == 4,
        r@[0].name@ == "filter"@,
        lines_view(r@[0].chains@) == seq!["INPUT"@, "FORWARD"@, "OUTPUT"@],
        r@[1].name@ == "mangle"@,
        lines_view(r@[1].chains@) == seq![
            "PREROUTING"@,
            "INPUT"@,
            "FORWARD"@,
            "OUTPUT"@,
            "POSTROUTING"@,
        ],
        r@[2].name@ == "nat"@,
        lines_view(r@[2].chains@) == seq!["PREROUTING"@, "INPUT"@, "OUTPUT"@, "POSTROUTING"@],
        r@[3].name@ == "raw"@,
        lines_view(r@[3].chains@) == seq!["PREROUTING"@, "OUTPUT"@],
{
    let mut filter_chains: Vec<Vec<char>> = Vec::new();
    filter_chains.push(chars_of("INPUT"));
    filter_chains.push(chars_of("FORWARD"));
    filter_chains.push(chars_of("OUTPUT"));
    proof {
        assert(lines_view(filter_chains@) =~= seq!["INPUT"@, "FORWARD"@, "OUTPUT"@]);
    }
    let mut mangle_chains: Vec<Vec<char>> = Vec::new();
    mangle_chains.push(chars_of("PREROUTING"));
    mangle_chains.push(chars_of("INPUT"));
    mangle_chains.push(chars_of("FORWARD"));
    mangle_chains.push(chars_of("OUTPUT"));
    mangle_chains.push(chars_of("POSTROUTING"));
    proof {
        assert(lines_view(mangle_chains@) =~= seq![
            "PREROUTING"@,
            "INPUT"@,
            "FORWARD"@,
            "OUTPUT"@,
            "POSTROUTING"@,
        ]);
    }
    let mut nat_chains: Vec<Vec<char>> = Vec::new();
    nat_chains.push(chars_of("PREROUTING"));
    nat_chains.push(chars_of("INPUT"));
    nat_chains.push(chars_of("OUTPUT"));
    nat_chains.push(chars_of("POSTROUTING"));
    proof {
        assert(lines_view(nat_chains@) =~= seq![
            "PREROUTING"@,
            "INPUT"@,
            "OUTPUT"@,
            "POSTROUTING"@,
        ]);
    }
    let mut raw_chains: Vec<Vec<char>> = Vec::new();
    raw_chains.push(chars_of("PREROUTING"));
    raw_chains.push(chars_of("OUTPUT"));
    proof {
        assert(lines_view(raw_chains@) =~= seq!["PREROUTING"@, "OUTPUT"@]);
    }
    let mut r: Vec<TableDef> = Vec::new();
    r.push(TableDef { name: chars_of("filter"), chains: filter_chains });
    r.push(TableDef { name: chars_of("mangle"), chains: mangle_chains });
    r.push(TableDef { name: chars_of("nat"), chains: nat_chains });
    r.push(TableDef { name: chars_of("raw"), chains: raw_chains });
    r
}

/// The namespace prefix under which all generated chains are created.
pub fn namespace_prefix() -> (r: Vec<char>)
    ensures
        r@ == "_mfw_"@,
        forall|k: int| 0 <= k < r@.len() ==> !is_space(#[trigger] r@[k]),
{
    let r = chars_of("_mfw_");
    proof {
        reveal_strlit("_mfw_");
    }
    r
}

/// Script generation is deterministic: the same statements, tables and
/// prefix always yield the same script, character for character; no
/// iteration order or hidden state enters the result.
pub proof fn lemma_generation_deterministic(
    verbose: bool,
    lines: Seq<Seq<char>>,
    tables: Seq<TableDef>,
    prefix: Seq<char>,
    a: Seq<char>,
    b: Seq<char>,
)
    requires
        a == apply_view(verbose, lines, tables, prefix),
        b == apply_view(verbose, lines, tables, prefix),
    ensures
        a == b,
{
}

/// A chain name is recorded as declared at position `i` exactly when some
/// earlier statement declares it: rewriting of rule bodies sees a chain
/// only after its declaration, never before.
pub proof fn lemma_declared_iff(lines: Seq<Seq<char>>, i: int, c: Seq<char>)
    requires
        0 <= i <= lines.len(),
    ensures
        declared(lines, i).contains(c) <==> exists|j: int|
            0 <= j < i && is_chain_decl(#[trigger] lines[j]) && chain_name_of(lines[j]) == c,
    decreases i,
{
    if i > 0 {
        lemma_declared_iff(lines, i - 1, c);
        let d = declared(lines, i - 1);
        let l = lines[i - 1];
        if is_chain_decl(l) && !d.contains(chain_name_of(l)) {
            crate::text::lemma_push_contains(d, chain_name_of(l), c);
        }
        if exists|j: int|
            0 <= j < i && is_chain_decl(#[trigger] lines[j]) && chain_name_of(lines[j]) == c {
            let j = choose|j: int|
                0 <= j < i && is_chain_decl(#[trigger] lines[j]) && chain_name_of(lines[j]) == c;
            if j < i - 1 {
                assert(declared(lines, i - 1).contains(c));
            }
        }
    }
}

/// The whitespace-delimited tokens of `s` from position `i` on, in order.
pub open spec fn tokens_from(s: Seq<char>, i: int) -> Seq<Seq<char>>
    decreases s.len() - i,
    when 0 <= i
    via tokens_from_dec
{
    if i >= s.len() {
        Seq::<Seq<char>>::empty()
    } else if is_space(s[i]) {
        tokens_from(s, i + 1)
    } else {
        seq![s.subrange(i, token_end(s, i))] + tokens_from(s, token_end(s, i))
    }
}

#[via_fn]
proof fn tokens_from_dec(s: Seq<char>, i: int) {
    if 0 <= i < s.len() && !is_space(s[i]) {
        lemma_token_end_bounds(s, i);
    }
}

/// Every character of a token is a non-space.
proof fn lemma_token_chars_nonspace(s: Seq<char>, i: int)
    requires
        0 <= i <= s.len(),
    ensures
        forall|k: int| i <= k < token_end(s, i) ==> !is_space(#[trigger] s[k]),
    decreases s.len() - i,
{
    if i < s.len() && !is_space(s[i]) {
        lemma_token_chars_nonspace(s, i + 1);
    }
}

/// Scanning for a token end beyond a leading block only sees the tail.
proof fn lemma_token_end_shift(a: Seq<char>, b: Seq<char>, k: int)
    requires
        0 <= k <= b.len(),
    ensures
        token_end(a + b, a.len() + k) == a.len() + token_end(b, k),
    decreases b.len() - k,
{
    if k < b.len() {
        assert((a + b)[a.len() + k] == b[k]);
        if !is_space(b[k]) {
            lemma_token_end_shift(a, b, k + 1);
        }
    }
}

/// A non-space run followed by a space (or the end) is one whole token.
proof fn lemma_token_end_run(u: Seq<char>, v: Seq<char>, k: int)
    requires
        0 <= k <= u.len(),
        forall|x: int| 0 <= x < u.len() ==> !is_space(#[trigger] u[x]),
        v.len() == 0 || is_space(v[0]),
    ensures
        token_end(u + v, k) == u.len(),
    decreases u.len() - k,
{
    if k < u.len() {
        assert((u + v)[k] == u[k]);
        lemma_token_end_run(u, v, k + 1);
    } else {
        if v.len() > 0 {
            assert((u + v)[k] == v[0]);
        }
    }
}

/// Tokenisation beyond a leading block only sees the tail.
proof fn lemma_tokens_shift(a: Seq<char>, b: Seq<char>, k: int)
    requires
        0 <= k <= b.len(),
    ensures
        tokens_from(a + b, a.len() + k) == tokens_from(b, k),
    decreases b.len() - k,
{
    if k < b.len() {
        assert((a + b)[a.len() + k] == b[k]);
        if is_space(b[k]) {
            lemma_tokens_shift(a, b, k + 1);
        } else {
            lemma_token_end_bounds(b, k);
            lemma_token_end_shift(a, b, k);
            let j = token_end(b, k);
            assert((a + b).subrange(a.len() + k, a.len() + j) =~= b.subrange(k, j));
            lemma_tokens_shift(a, b, j);
        }
    }
}

/// A non-space run leading a sequence that opens with a space (or ends)
/// tokenises as that run followed by the rest.
proof fn lemma_tokens_run(u: Seq<char>, v: Seq<char>)
    requires
        u.len() > 0,
        forall|x: int| 0 <= x < u.len() ==> !is_space(#[trigger] u[x]),
        v.len() == 0 || is_space(v[0]),
    ensures
        tokens_from(u + v, 0) == seq![u] + tokens_from(v, 0),
{
    assert((u + v)[0] == u[0]);
    lemma_token_end_run(u, v, 0);
    assert((u + v).subrange(0, u.len() as int) =~= u);
    lemma_tokens_shift(u, v, 0);
}

/// Namespace isolation at token level: for a space-free prefix, rewriting
/// preserves the token decomposition of a rule body exactly, and each
/// token is passed through `subst_token` on its own — a declared chain
/// name becomes its namespaced form wherever it stands as a whole token,
/// and every other token, including any longer token that merely contains
/// a chain name, is kept as it is.
pub proof fn lemma_rewrite_tokens(s: Seq<char>, i: int, defined: Seq<Seq<char>>, prefix: Seq<char>)
    requires
        0 <= i <= s.len(),
        forall|k: int| 0 <= k < prefix.len() ==> !is_space(#[trigger] prefix[k]),
    ensures
        tokens_from(rewrite_from(s, i, defined, prefix), 0) == tokens_from(s, i).map_values(
            |t: Seq<char>| subst_token(t, defined, prefix),
        ),
    decreases s.len() - i,
{
    let f = |t: Seq<char>| subst_token(t, defined, prefix);
    if i >= s.len() {
        assert(tokens_from(rewrite_from(s, i, defined, prefix), 0) =~= tokens_from(s, i).map_values(
            f,
        ));
    } else if is_space(s[i]) {
        lemma_rewrite_tokens(s, i + 1, defined, prefix);
        let rest = rewrite_from(s, i + 1, defined, prefix);
        assert((seq![s[i]] + rest)[0] == s[i]);
        lemma_tokens_shift(seq![s[i]], rest, 0);
    } else {
        lemma_token_end_bounds(s, i);
        let j = token_end(s, i);
        let t = s.subrange(i, j);
        lemma_token_chars_nonspace(s, i);
        assert(forall|x: int| 0 <= x < t.len() ==> !is_space(#[trigger] t[x]));
        lemma_rewrite_tokens(s, j, defined, prefix);
        let rest = rewrite_from(s, j, defined, prefix);
        if j < s.len() {
            assert(is_space(s[j]));
            assert(rest == seq![s[j]] + rewrite_from(s, j + 1, defined, prefix));
            assert(rest.len() > 0 && is_space(rest[0]));
        } else {
            assert(rest =~= Seq::<char>::empty());
        }
        let u = subst_token(t, defined, prefix);
        assert(u.len() > 0);
        assert(forall|x: int| 0 <= x < u.len() ==> !is_space(#[trigger] u[x]));
        lemma_tokens_run(u, rest);
        assert(seq![u] + tokens_from(s, j).map_values(f) =~= (seq![t] + tokens_from(
            s,
            j,
        )).map_values(f));
    }
}

/// Rewriting against an empty set of declared chains changes nothing: a
/// rule body whose tokens name no chain declared so far is emitted as it
/// stands, character for character.
pub proof fn lemma_rewrite_empty(s: Seq<char>, i: int, prefix: Seq<char>)
    requires
        0 <= i <= s.len(),
    ensures
        rewrite_from(s, i, Seq::<Seq<char>>::empty(), prefix) == s.skip(i),
    decreases s.len() - i,
{
    if i == s.len() {
        assert(s.skip(i) =~= Seq::<char>::empty());
    } else if is_space(s[i]) {
        lemma_rewrite_empty(s, i + 1, prefix);
        assert(seq![s[i]] + s.skip(i + 1) =~= s.skip(i));
    } else {
        lemma_token_end_bounds(s, i);
        let j = token_end(s, i);
        lemma_rewrite_empty(s, j, prefix);
        assert(!Seq::<Seq<char>>::empty().contains(s.subrange(i, j)));
        assert(s.subrange(i, j) + s.skip(j) =~= s.skip(i));
    }
}

/// A rule body under an active table is emitted as one command against
/// that table, with exactly the chains declared so far rewritten to their
/// namespaced form.
pub proof fn lemma_rule_body_output(
    lines: Seq<Seq<char>>,
    tables: Seq<TableDef>,
    prefix: Seq<char>,
    i: int,
    t: Seq<char>,
)
    requires
        0 <= i < lines.len(),
        is_rule_body(lines[i]),
        table_ctx(lines, i) == Some(t),
    ensures
        line_output(lines, tables, prefix, i) == "iptables -t "@ + t + " "@ + rewrite_view(
            lines[i],
            declared(lines, i),
            prefix,
        ) + "\n"@,
{
}

/// Declaring a chain whose name is built in for the active table emits no
/// creation commands.
pub proof fn lemma_builtin_chain_not_created(
    lines: Seq<Seq<char>>,
    tables: Seq<TableDef>,
    prefix: Seq<char>,
    i: int,
    t: Seq<char>,
    builtins: Seq<Seq<char>>,
)
    requires
        0 <= i < lines.len(),
        is_chain_decl(lines[i]),
        table_ctx(lines, i) == Some(t),
        chains_for(tables, t) == Some(builtins),
        builtins.contains(chain_name_of(lines[i])),
    ensures
        line_output(lines, tables, prefix, i) == Seq::<char>::empty(),
{
}

/// Declaring any other chain name under a known table, for the first time,
/// emits exactly the idempotent creation block for its namespaced form.
pub proof fn lemma_user_chain_created(
    lines: Seq<Seq<char>>,
    tables: Seq<TableDef>,
    prefix: Seq<char>,
    i: int,
    t: Seq<char>,
    builtins: Seq<Seq<char>>,
)
    requires
        0 <= i < lines.len(),
        is_chain_decl(lines[i]),
        table_ctx(lines, i) == Some(t),
        chains_for(tables, t) == Some(builtins),
        !builtins.contains(chain_name_of(lines[i])),
        !declared(lines, i).contains(chain_name_of(lines[i])),
    ensures
        line_output(lines, tables, prefix, i) == creation_block(t, prefix, chain_name_of(lines[i])),
{
}

/// The tables the teardown loop of the uninstall script walks.
pub open spec fn teardown_tables() -> Seq<Seq<char>> {
    seq!["filter"@, "nat"@, "mangle"@, "raw"@, "security"@]
}

/// A successful built-in lookup names one of the specified tables.
proof fn lemma_chains_for_name(tables: Seq<TableDef>, t: Seq<char>)
    requires
        chains_for(tables, t) is Some,
    ensures
        exists|k: int| 0 <= k < tables.len() && #[trigger] tables[k].name@ == t,
    decreases tables.len(),
{
    if tables.len() > 0 {
        if tables[0].name@ == t {
            assert(tables[0].name@ == t);
        } else {
            lemma_chains_for_name(tables.drop_first(), t);
            let k = choose|k: int|
                0 <= k < tables.drop_first().len() && #[trigger] tables.drop_first()[k].name@ == t;
            assert(tables[k + 1].name@ == t);
        }
    }
}

/// Teardown completeness: every chain creation that the apply script
/// emits under a table of the specification falls under a table that the
/// teardown loop covers, so running the uninstall script afterwards
/// removes every such chain.  The premise asks that each specified table
/// is in the teardown list, and that the active table at `i` is one of
/// them: a declaration under a table outside the specification is still
/// created (the conservative policy) but its table is covered only if it
/// happens to be among the teardown loop's fixed five.
pub proof fn lemma_teardown_covers(
    lines: Seq<Seq<char>>,
    tables: Seq<TableDef>,
    prefix: Seq<char>,
    i: int,
)
    requires
        forall|k: int|
            0 <= k < tables.len() ==> teardown_tables().contains(#[trigger] tables[k].name@),
        0 <= i < lines.len(),
        is_chain_decl(lines[i]),
        line_output(lines, tables, prefix, i) != Seq::<char>::empty(),
        match table_ctx(lines, i) {
            Some(t) => chains_for(tables, t) is Some,
            None => true,
        },
    ensures
        match table_ctx(lines, i) {
            Some(t) => teardown_tables().contains(t),
            None => false,
        },
{
    match table_ctx(lines, i) {
        Some(t) => {
            lemma_chains_for_name(tables, t);
        },
        None => {
            assert(line_output(lines, tables, prefix, i) == Seq::<char>::empty());
        },
    }
}

/// Declaring a chain under a table the specification does not know still
/// creates its namespaced chain, the conservative policy for the open
/// question of what an unknown table's built-in chains are.
pub proof fn lemma_unknown_table_chain_created(
    lines: Seq<Seq<char>>,
    tables: Seq<TableDef>,
    prefix: Seq<char>,
    i: int,
    t: Seq<char>,
)
    requires
        0 <= i < lines.len(),
        is_chain_decl(lines[i]),
        table_ctx(lines, i) == Some(t),
        chains_for(tables, t) is None,
        !declared(lines, i).contains(chain_name_of(lines[i])),
    ensures
        line_output(lines, tables, prefix, i) == creation_block(t, prefix, chain_name_of(lines[i])),
{
}

/// The default table specification lies wholly inside the teardown list.
pub proof fn lemma_default_tables_in_teardown(tables: Seq<TableDef>)
    requires
        tables.len() == 4,
        tables[0].name@ == "filter"@,
        tables[1].name@ == "mangle"@,
        tables[2].name@ == "nat"@,
        tables[3].name@ == "raw"@,
    ensures
        forall|k: int|
            0 <= k < tables.len() ==> teardown_tables().contains(#[trigger] tables[k].name@),
{
    assert(teardown_tables()[0] == "filter"@);
    assert(teardown_tables()[2] == "mangle"@);
    assert(teardown_tables()[1] == "nat"@);
    assert(teardown_tables()[3] == "raw"@);
    assert forall|k: int|
        0 <= k < tables.len() implies teardown_tables().contains(#[trigger] tables[k].name@) by {
        if k == 0 {
            assert(teardown_tables().contains(tables[k].name@));
        } else if k == 1 {
            assert(teardown_tables()[2] == tables[k].name@);
            assert(teardown_tables().contains(tables[k].name@));
        } else if k == 2 {
            assert(teardown_tables()[1] == tables[k].name@);
            assert(teardown_tables().contains(tables[k].name@));
        } else {
            assert(teardown_tables()[3] == tables[k].name@);
            assert(teardown_tables().contains(tables[k].name@));
        }
    }
}

} // verus!
