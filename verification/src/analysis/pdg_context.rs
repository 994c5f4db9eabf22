//! Context from the control flow graphs of a project's files: the
//! conditions a line runs under, and where the variables handed to calls on
//! a line were defined.

use vstd::prelude::*;
use crate::text::{
    decimal, decimal_string, string_views, str_eq, joined, join, is_prefix, is_suffix, has_substring, starts_with,
    ends_with, contains,
};
use crate::scan::{lines_of, split_lines, words_of, split_words, last_index_of, rfind_char, alphanumeric, is_alnum};
use crate::detect::common::{trimmed, trim, first_index_of, find_char, comma_pieces, split_commas};
use crate::cfg::blocks::{BasicBlock, BlockKind, CfgGraph, cfg_blocks, cfg_edges, cfg_node_count, cfg_block_at};
use crate::cfg::builder::{build_cfg, rows_fit};
use crate::cfg::model::{view_of, methods_cfg, CfgView};
use crate::cfg::builder::{cfg_methods_at};
use crate::parse::syntax::SyntaxTree;
use crate::parse::parser::parsed_from;
use crate::hammock::dominators::{reversed_pairs, graph_pairs, pairs_in};
use crate::hammock::builder::{lemma_count_set, lemma_count_bound};
use crate::hammock::dominators::count_row;
use crate::pdg::paths::{succs, succs_exec, lemma_succs_in};
use crate::resolve::types::{TypeGraph, first_method_named, find_method};

verus! {

/// A file of the project: its path, its text and its control flow graph.
pub struct PdgFile {
    pub path: String,
    pub source: String,
    pub cfg: CfgGraph,
}

/// The files of a project with their control flow graphs, one entry per
/// path.
pub struct PdgContext {
    pub files: Vec<PdgFile>,
}

/// The entry of `fs` for `path`: its text and graph.
pub open spec fn entry_for(fs: Seq<PdgFile>, path: Seq<char>) -> Option<(Seq<char>, CfgGraph)>
    decreases fs.len(),
{
    if fs.len() == 0 {
        None
    } else if fs[0].path@ == path {
        Some((fs[0].source@, fs[0].cfg))
    } else {
        entry_for(fs.drop_first(), path)
    }
}

/// `g` is the control flow graph of the parse of the text `src`.
pub open spec fn graph_of_text(src: Seq<char>, g: CfgGraph) -> bool {
    exists|t: SyntaxTree|
        t.wf() && parsed_from(t, src) && rows_fit(t) && view_of(g) == methods_cfg(
            t,
            cfg_methods_at(t.nodes@, t.root as int),
            CfgView { blocks: Seq::empty(), edges: Seq::empty() },
        )
}

impl PdgContext {
    /// The entry for `path`.
    pub open spec fn entry(self, path: Seq<char>) -> Option<(Seq<char>, CfgGraph)> {
        entry_for(self.files@, path)
    }

    /// A context without files.
    pub fn empty() -> (r: Self)
        ensures
            forall|p: Seq<char>| #[trigger] r.entry(p) is None,
    {
        PdgContext { files: Vec::new() }
    }

    /// Adds the file at `path` with text `source` (replacing an earlier
    /// entry for the path); any other path keeps its entry. Only a source
    /// whose lines cannot be numbered is left out.
    pub fn add_file(&mut self, path: &str, source: String)
        ensures
            forall|p: Seq<char>| p != path@ ==> #[trigger] final(self).entry(p) == old(self).entry(p),
            (final(self).entry(path@) matches Some(e) && e.0 == source@ && graph_of_text(source@, e.1)) || (
            final(self).entry(path@) == old(self).entry(path@) && exists|t: SyntaxTree| t.wf() && parsed_from(t, source@) && !rows_fit(t)),
    {
        let cfg = match build_cfg(source.as_str()) {
            Ok(g) => g,
            Err(_) => {
                return;
            },
        };
        let ghost fs = self.files@;
        let mut k: usize = 0;
        while k < self.files.len() && !str_eq(self.files[k].path.as_str(), path)
            invariant
                fs == self.files@,
                k <= fs.len(),
                forall|j: int| 0 <= j < k ==> (#[trigger] fs[j]).path@ != path@,
            decreases self.files.len() - k,
        {
            k = k + 1;
        }
        let ghost sv = source@;
        let f = PdgFile { path: String::from_str(path), source, cfg };
        let ghost fv = f;
        if k < self.files.len() {
            self.files.set(k, f);
            proof {
                lemma_entry_replace(fs, k as int, fv, path@);
            }
        } else {
            self.files.push(f);
            proof {
                lemma_entry_push(fs, fv, path@);
            }
        }
    }

    /// The file of the method `method` of class `class`, when it has one.
    pub fn get_method_file(class: &str, method: &str, tg: &TypeGraph) -> (r: Option<String>)
        ensures
            match r {
                Some(f) => method_file(*tg, class@, method@) == Some(f@),
                None => method_file(*tg, class@, method@) is None,
            },
    {
        let ci = match tg.get_class(class) {
            Some(c) => c,
            None => {
                return None;
            },
        };
        match find_method(&ci.methods, method) {
            Some(m) => {
                if m.file.unicode_len() > 0 {
                    Some(m.file.clone())
                } else {
                    None
                }
            },
            None => None,
        }
    }
}

/// The file recorded for method `method` of class `class` (none when it is
/// empty).
pub open spec fn method_file(tg: TypeGraph, class: Seq<char>, method: Seq<char>) -> Option<Seq<char>> {
    match tg.lookup_class(class) {
        None => None,
        Some(c) => match first_method_named(c.methods@, method) {
            None => None,
            Some(m) => if m.file@.len() > 0 {
                Some(m.file@)
            } else {
                None
            },
        },
    }
}

proof fn lemma_entry_replace(fs: Seq<PdgFile>, k: int, f: PdgFile, path: Seq<char>)
    requires
        0 <= k < fs.len(),
        fs[k].path@ == path,
        f.path@ == path,
        forall|j: int| 0 <= j < k ==> (#[trigger] fs[j]).path@ != path,
    ensures
        entry_for(fs.update(k, f), path) == Some((f.source@, f.cfg)),
        forall|p: Seq<char>| p != path ==> #[trigger] entry_for(fs.update(k, f), p) == entry_for(fs, p),
    decreases fs.len(),
{
    let u = fs.update(k, f);
    if k == 0 {
        assert(u.drop_first() =~= fs.drop_first());
        assert(u[0] == f);
        assert forall|p: Seq<char>| p != path implies #[trigger] entry_for(u, p) == entry_for(fs, p) by {}
    } else {
        assert(u.drop_first() =~= fs.drop_first().update(k - 1, f));
        assert forall|j: int| 0 <= j < k - 1 implies (#[trigger] fs.drop_first()[j]).path@ != path by {
            assert(fs.drop_first()[j] == fs[j + 1]);
        }
        lemma_entry_replace(fs.drop_first(), k - 1, f, path);
        assert(u[0] == fs[0]);
        assert(fs[0].path@ != path);
        assert forall|p: Seq<char>| p != path implies #[trigger] entry_for(u, p) == entry_for(fs, p) by {
            if fs[0].path@ != p {
                assert(entry_for(u.drop_first(), p) == entry_for(fs.drop_first(), p));
            }
        }
    }
}

proof fn lemma_entry_push(fs: Seq<PdgFile>, f: PdgFile, path: Seq<char>)
    requires
        f.path@ == path,
        forall|j: int| 0 <= j < fs.len() ==> (#[trigger] fs[j]).path@ != path,
    ensures
        entry_for(fs.push(f), path) == Some((f.source@, f.cfg)),
        forall|p: Seq<char>| p != path ==> #[trigger] entry_for(fs.push(f), p) == entry_for(fs, p),
    decreases fs.len(),
{
    let u = fs.push(f);
    if fs.len() == 0 {
        assert(u.drop_first() =~= fs);
        assert(u[0] == f);
        assert forall|p: Seq<char>| p != path implies #[trigger] entry_for(u, p) == entry_for(fs, p) by {
            assert(entry_for(u.drop_first(), p) is None);
        }
    } else {
        assert(u.drop_first() =~= fs.drop_first().push(f));
        assert forall|j: int| 0 <= j < fs.drop_first().len() implies (#[trigger] fs.drop_first()[j]).path@ != path by {
            assert(fs.drop_first()[j] == fs[j + 1]);
        }
        lemma_entry_push(fs.drop_first(), f, path);
        assert(u[0] == fs[0]);
        assert(fs[0].path@ != path);
        assert forall|p: Seq<char>| p != path implies #[trigger] entry_for(u, p) == entry_for(fs, p) by {
            if fs[0].path@ != p {
                assert(entry_for(u.drop_first(), p) == entry_for(fs.drop_first(), p));
            }
        }
    }
}

/// The first block whose lines hold `line`.
pub open spec fn block_at_line(blocks: Seq<BasicBlock>, line: usize, i: int) -> Option<int>
    decreases i,
{
    if i <= 0 {
        None
    } else {
        match block_at_line(blocks, line, i - 1) {
            Some(p) => Some(p),
            None => if blocks[i - 1].start_line <= line && line <= blocks[i - 1].end_line {
                Some(i - 1)
            } else {
                None
            },
        }
    }
}

/// The text of a block: its lines joined by spaces, trimmed (empty when its
/// lines are not in the file).
pub open spec fn block_text(lines: Seq<Seq<char>>, b: BasicBlock) -> Seq<char> {
    if b.start_line == 0 || b.start_line > lines.len() {
        Seq::empty()
    } else {
        let s = b.start_line - 1;
        let e = if b.end_line < lines.len() { b.end_line as int } else { lines.len() as int };
        if s >= e {
            Seq::empty()
        } else {
            trimmed(joined(lines.subrange(s, e), " "@))
        }
    }
}

/// The condition a block stands for, when it is a condition, a loop
/// header or a handler.
pub open spec fn condition_of(lines: Seq<Seq<char>>, b: BasicBlock) -> Option<Seq<char>> {
    match b.kind {
        BlockKind::Condition => Some("when: if ("@ + block_text(lines, b) + ") [L"@ + decimal(b.start_line as nat) + "]"@),
        BlockKind::LoopHeader => Some("when: "@ + block_text(lines, b) + " [L"@ + decimal(b.start_line as nat) + "]"@),
        BlockKind::Handler => Some("when: "@ + block_text(lines, b) + " [L"@ + decimal(b.start_line as nat) + "]"@),
        _ => None,
    }
}

/// The state of the walk up the predecessors: visited blocks, blocks still
/// to expand, conditions found.
pub struct WalkState {
    pub visited: Seq<bool>,
    pub stack: Seq<usize>,
    pub conds: Seq<Seq<char>>,
}

/// Visits the predecessors `ps` in order: each not yet visited is marked;
/// a condition is recorded, any other block is kept to expand.
pub open spec fn visit_preds(blocks: Seq<BasicBlock>, lines: Seq<Seq<char>>, ps: Seq<usize>, w: WalkState) -> WalkState
    decreases ps.len(),
{
    if ps.len() == 0 {
        w
    } else {
        let p = ps[0];
        let next = if w.visited[p as int] {
            w
        } else {
            let v2 = w.visited.update(p as int, true);
            match condition_of(lines, blocks[p as int]) {
                Some(c) => WalkState { visited: v2, stack: w.stack, conds: w.conds.push(c) },
                None => WalkState { visited: v2, stack: w.stack.push(p), conds: w.conds },
            }
        };
        visit_preds(blocks, lines, ps.drop_first(), next)
    }
}

/// The walk: the last block to expand is taken and its predecessors
/// visited, at most `fuel` times.
pub open spec fn walk_conditions(
    blocks: Seq<BasicBlock>,
    rev: Seq<(usize, usize)>,
    lines: Seq<Seq<char>>,
    w: WalkState,
    fuel: nat,
) -> Seq<Seq<char>>
    decreases fuel,
{
    if fuel == 0 || w.stack.len() == 0 {
        w.conds
    } else {
        let n = w.stack.last();
        let w2 = visit_preds(
            blocks,
            lines,
            succs(rev, n as int),
            WalkState { visited: w.visited, stack: w.stack.drop_last(), conds: w.conds },
        );
        walk_conditions(blocks, rev, lines, w2, (fuel - 1) as nat)
    }
}

/// The conditions line `line` of a file runs under: from the first block
/// holding the line, the conditions, loop headers and handlers met going
/// up its predecessors (not past them), the last found first; none when
/// there are none.
pub open spec fn control_context(src: Seq<char>, g: CfgGraph, line: usize) -> Option<Seq<Seq<char>>> {
    let blocks = cfg_blocks(g);
    match block_at_line(blocks, line, blocks.len() as int) {
        None => None,
        Some(b) => {
            let w0 = WalkState {
                visited: Seq::new(blocks.len(), |i: int| i == b),
                stack: seq![b as usize],
                conds: Seq::empty(),
            };
            let cs = walk_conditions(blocks, reversed_pairs(cfg_edges(g)), lines_of(src), w0, blocks.len() + 1);
            if cs.len() == 0 {
                None
            } else {
                Some(cs.reverse())
            }
        },
    }
}

/// `t` is a definition line of `var`: it declares or assigns `var` (by
/// the text before its first `=`).
pub open spec fn defines(t: Seq<char>, var: Seq<char>) -> bool {
    (is_prefix("var "@ + var + " "@, t) || is_prefix("var "@ + var + "="@, t) || has_substring(t, " "@ + var + " ="@)
        || has_substring(t, " "@ + var + "\n="@)) && match first_index_of(t, '=') {
        Some(eq) => {
            let lhs = trimmed(t.subrange(0, eq));
            lhs == var || is_suffix(" "@ + var, lhs) || is_prefix("var "@ + var, lhs)
        },
        None => false,
    }
}

/// The first line (counted from 1) before `up_to` that defines `var`.
pub open spec fn definition_line(lines: Seq<Seq<char>>, var: Seq<char>, up_to: usize, i: int) -> Option<int>
    decreases lines.len() - i,
{
    if i < 0 || i >= lines.len() || i + 1 >= up_to {
        None
    } else if defines(trimmed(lines[i]), var) {
        Some(i + 1)
    } else {
        definition_line(lines, var, up_to, i + 1)
    }
}

/// An argument that names a variable: not empty, of letters, digits, `_`
/// and `.`, not starting with a digit.
pub open spec fn names_variable(a: Seq<char>) -> bool {
    &&& a.len() > 0
    &&& forall|i: int| 0 <= i < a.len() ==> alphanumeric(#[trigger] a[i]) || a[i] == '_' || a[i] == '.'
    &&& !('0' <= a[0] && a[0] <= '9')
}

/// The lines for the arguments `args` of a call: each that names a
/// variable defined before `line`, with the line of its definition.
pub open spec fn arg_flow(lines: Seq<Seq<char>>, args: Seq<Seq<char>>, line: usize) -> Seq<Seq<char>>
    decreases args.len(),
{
    if args.len() == 0 {
        Seq::empty()
    } else {
        let a = trimmed(args.last());
        arg_flow(lines, args.drop_last(), line) + if names_variable(a) {
            match definition_line(lines, a, line, 0) {
                Some(d) => seq![a + " from L"@ + decimal(d as nat)],
                None => Seq::empty(),
            }
        } else {
            Seq::empty()
        }
    }
}

/// A word that holds both parentheses: the text between its first `(` and
/// its last `)`.
pub open spec fn call_args(w: Seq<char>) -> Option<Seq<char>> {
    match (first_index_of(w, '('), last_index_of(w, ')')) {
        (Some(a), Some(b)) => Some(w.subrange(a + 1, b)),
        _ => None,
    }
}

/// In every word that holds both parentheses the first `(` comes before
/// the last `)`.
pub open spec fn parens_ordered(words: Seq<Seq<char>>) -> bool {
    forall|i: int| 0 <= i < words.len() ==> match (first_index_of(#[trigger] words[i], '('), last_index_of(words[i], ')')) {
        (Some(a), Some(b)) => a < b,
        _ => true,
    }
}

/// The data flow lines of the words of a block.
pub open spec fn words_flow(lines: Seq<Seq<char>>, words: Seq<Seq<char>>, line: usize) -> Seq<Seq<char>>
    decreases words.len(),
{
    if words.len() == 0 {
        Seq::empty()
    } else {
        words_flow(lines, words.drop_last(), line) + match call_args(words.last()) {
            Some(args) => if args.len() == 0 {
                Seq::empty()
            } else {
                arg_flow(lines, comma_pieces(args), line)
            },
            None => Seq::empty(),
        }
    }
}

/// The first block holding `line` and its words, when there is one.
pub open spec fn line_words(src: Seq<char>, g: CfgGraph, line: usize) -> Option<Seq<Seq<char>>> {
    let blocks = cfg_blocks(g);
    match block_at_line(blocks, line, blocks.len() as int) {
        None => None,
        Some(b) => Some(words_of(block_text(lines_of(src), blocks[b]))),
    }
}

/// Where the variables handed to calls on line `line` were defined: for
/// each argument of a call in the block holding the line that names a
/// variable defined on an earlier line, `<arg> from L<line>`; none when
/// there are none.
pub open spec fn data_context(src: Seq<char>, g: CfgGraph, line: usize) -> Option<Seq<Seq<char>>> {
    match line_words(src, g, line) {
        None => None,
        Some(ws) => {
            let f = words_flow(lines_of(src), ws, line);
            if f.len() == 0 {
                None
            } else {
                Some(f)
            }
        },
    }
}

fn entry_index(fs: &Vec<PdgFile>, path: &str) -> (r: Option<usize>)
    ensures
        match r {
            Some(k) => k < fs@.len() && entry_for(fs@, path@) == Some((fs@[k as int].source@, fs@[k as int].cfg)),
            None => entry_for(fs@, path@) is None,
        },
{
    let mut k: usize = 0;
    assert(fs@.subrange(0, fs@.len() as int) =~= fs@);
    while k < fs.len()
        invariant
            k <= fs@.len(),
            entry_for(fs@, path@) == entry_for(fs@.subrange(k as int, fs@.len() as int), path@),
        decreases fs.len() - k,
    {
        let ghost rest = fs@.subrange(k as int, fs@.len() as int);
        assert(rest[0] == fs@[k as int]);
        assert(rest.drop_first() =~= fs@.subrange(k + 1, fs@.len() as int));
        if str_eq(fs[k].path.as_str(), path) {
            return Some(k);
        }
        k = k + 1;
    }
    None
}

fn block_at_line_exec(g: &CfgGraph, line: usize) -> (r: Option<usize>)
    ensures
        match r {
            Some(b) => b < cfg_blocks(*g).len() && block_at_line(cfg_blocks(*g), line, cfg_blocks(*g).len() as int)
                == Some(b as int),
            None => block_at_line(cfg_blocks(*g), line, cfg_blocks(*g).len() as int) is None,
        },
{
    let ghost blocks = cfg_blocks(*g);
    let n = cfg_node_count(g);
    let mut i: usize = 0;
    while i < n
        invariant
            n == blocks.len(),
            blocks == cfg_blocks(*g),
            i <= n,
            block_at_line(blocks, line, i as int) is None,
        decreases n - i,
    {
        let b = cfg_block_at(g, i);
        if b.start_line <= line && line <= b.end_line {
            assert(block_at_line(blocks, line, i + 1) == Some(i as int));
            proof {
                lemma_block_found(blocks, line, i as int + 1, n as int);
            }
            return Some(i);
        }
        i = i + 1;
    }
    None
}

proof fn lemma_block_found(blocks: Seq<BasicBlock>, line: usize, i: int, m: int)
    requires
        0 <= i <= m,
        block_at_line(blocks, line, i) is Some,
    ensures
        block_at_line(blocks, line, m) == block_at_line(blocks, line, i),
    decreases m - i,
{
    if m > i {
        lemma_block_found(blocks, line, i, m - 1);
    }
}

fn block_text_exec(lines: &Vec<String>, b: BasicBlock) -> (r: String)
    ensures
        r@ == block_text(string_views(lines@), b),
{
    proof {
        reveal_strlit("");
    }
    if b.start_line == 0 || b.start_line > lines.len() {
        return String::new();
    }
    let s = b.start_line - 1;
    let e = if b.end_line < lines.len() { b.end_line } else { lines.len() };
    if s >= e {
        return String::new();
    }
    let mut part: Vec<String> = Vec::new();
    let mut i: usize = s;
    while i < e
        invariant
            s <= i <= e,
            e <= lines@.len(),
            string_views(part@) == string_views(lines@).subrange(s as int, i as int),
        decreases e - i,
    {
        let ghost before = string_views(part@);
        part.push(lines[i].clone());
        assert(string_views(part@) =~= before.push(lines@[i as int]@));
        assert(string_views(part@) =~= string_views(lines@).subrange(s as int, i + 1));
        i = i + 1;
    }
    let j = join(&part, " ");
    trim(j.as_str())
}

fn condition_exec(lines: &Vec<String>, b: BasicBlock) -> (r: Option<String>)
    ensures
        match r {
            Some(c) => condition_of(string_views(lines@), b) == Some(c@),
            None => condition_of(string_views(lines@), b) is None,
        },
{
    match b.kind {
        BlockKind::Condition => {
            let mut c = String::from_str("when: if (");
            let t = block_text_exec(lines, b);
            c.append(t.as_str());
            c.append(") [L");
            let d = decimal_string(b.start_line);
            c.append(d.as_str());
            c.append("]");
            Some(c)
        },
        BlockKind::LoopHeader | BlockKind::Handler => {
            let mut c = String::from_str("when: ");
            let t = block_text_exec(lines, b);
            c.append(t.as_str());
            c.append(" [L");
            let d = decimal_string(b.start_line);
            c.append(d.as_str());
            c.append("]");
            Some(c)
        },
        _ => None,
    }
}

impl PdgContext {
    /// The conditions line `line` of file `file` runs under (see
    /// `control_context`); none for a file without an entry.
    pub fn get_control_context(&self, file: &str, line: usize) -> (r: Option<Vec<String>>)
        ensures
            match self.entry(file@) {
                None => r is None,
                Some(e) => match control_context(e.0, e.1, line) {
                    None => r is None,
                    Some(cs) => r matches Some(v) && string_views(v@) == cs,
                },
            },
    {
        let k = match entry_index(&self.files, file) {
            Some(k) => k,
            None => {
                return None;
            },
        };
        let g = &self.files[k].cfg;
        let lines = split_lines(self.files[k].source.as_str());
        let ghost lv = string_views(lines@);
        let ghost blocks = cfg_blocks(*g);
        let b = match block_at_line_exec(g, line) {
            Some(b) => b,
            None => {
                return None;
            },
        };
        let n = cfg_node_count(g);
        let (_fw, bw) = graph_pairs(g);
        let ghost rev = bw@;
        let mut visited: Vec<bool> = Vec::new();
        let mut i: usize = 0;
        while i < n
            invariant
                i <= n,
                visited@.len() == i,
                forall|j: int| 0 <= j < i ==> #[trigger] visited@[j] == (j == b),
            decreases n - i,
        {
            visited.push(i == b);
            i = i + 1;
        }
        let mut stack: Vec<usize> = Vec::new();
        stack.push(b);
        let mut conds: Vec<String> = Vec::new();
        let ghost w0 = WalkState { visited: Seq::new(blocks.len(), |j: int| j == b), stack: seq![b as usize], conds: Seq::empty() };
        let ghost mut fuel: nat = blocks.len() + 1;
        proof {
            assert(visited@ =~= w0.visited);
            assert(stack@ =~= w0.stack);
            assert(string_views(conds@) =~= w0.conds);
            lemma_count_one(visited@, b as int);
        }
        while stack.len() > 0
            invariant
                n == blocks.len(),
                blocks == cfg_blocks(*g),
                rev == reversed_pairs(cfg_edges(*g)),
                bw@ == rev,
                pairs_in(rev, n as nat),
                lv == string_views(lines@),
                visited@.len() == n,
                forall|j: int| 0 <= j < stack@.len() ==> (#[trigger] stack@[j]) < n,
                count_row(visited@) <= n,
                fuel >= stack@.len() + (n - count_row(visited@)),
                walk_conditions(blocks, rev, lv, WalkState { visited: visited@, stack: stack@, conds: string_views(conds@) }, fuel)
                    == walk_conditions(blocks, rev, lv, w0, blocks.len() + 1),
            decreases stack@.len() + (n - count_row(visited@)),
        {
            let ghost st0 = stack@;
            let ghost wold = WalkState { visited: visited@, stack: stack@, conds: string_views(conds@) };
            let top = stack.pop().unwrap();
            assert(st0.last() == top);
            assert(stack@ =~= st0.drop_last());
            let ps = succs_exec(&bw, top);
            proof {
                lemma_succs_in(rev, top as int, n as nat);
            }
            let ghost wstart = WalkState { visited: visited@, stack: stack@, conds: string_views(conds@) };
            let ghost m0: int = stack@.len() + (n - count_row(visited@));
            let mut j: usize = 0;
            assert(ps@.subrange(0, ps@.len() as int) =~= ps@);
            while j < ps.len()
                invariant
                    n == blocks.len(),
                    blocks == cfg_blocks(*g),
                    lv == string_views(lines@),
                    visited@.len() == n,
                    forall|q: int| 0 <= q < ps@.len() ==> (#[trigger] ps@[q]) < n,
                    forall|q: int| 0 <= q < stack@.len() ==> (#[trigger] stack@[q]) < n,
                    count_row(visited@) <= n,
                    j <= ps@.len(),
                    stack@.len() + (n - count_row(visited@)) <= m0,
                visit_preds(blocks, lv, ps@, wstart) == visit_preds(
                        blocks,
                        lv,
                        ps@.subrange(j as int, ps@.len() as int),
                        WalkState { visited: visited@, stack: stack@, conds: string_views(conds@) },
                    ),
                decreases ps.len() - j,
            {
                let p = ps[j];
                let ghost cur = WalkState { visited: visited@, stack: stack@, conds: string_views(conds@) };
                let ghost rest = ps@.subrange(j as int, ps@.len() as int);
                assert(rest[0] == p);
                assert(rest.drop_first() =~= ps@.subrange(j + 1, ps@.len() as int));
                if !visited[p] {
                    proof {
                        lemma_count_set(visited@, p as int);
                        lemma_count_bound(visited@.update(p as int, true));
                    }
                    visited.set(p, true);
                    let bp = cfg_block_at(g, p);
                    match condition_exec(&lines, bp) {
                        Some(c) => {
                            let ghost cv = string_views(conds@);
                            conds.push(c);
                            assert(string_views(conds@) =~= cv.push(condition_of(lv, blocks[p as int])->0));
                        },
                        None => {
                            stack.push(p);
                        },
                    }
                }
                j = j + 1;
            }
            proof {
                assert(ps@.subrange(j as int, ps@.len() as int) =~= Seq::<usize>::empty());
                assert(wstart == WalkState { visited: wold.visited, stack: st0.drop_last(), conds: wold.conds });
                assert(walk_conditions(blocks, rev, lv, wold, fuel) == walk_conditions(
                    blocks,
                    rev,
                    lv,
                    visit_preds(blocks, lv, ps@, wstart),
                    (fuel - 1) as nat,
                ));
                fuel = (fuel - 1) as nat;
            }
        }
        assert(walk_conditions(blocks, rev, lv, WalkState { visited: visited@, stack: stack@, conds: string_views(conds@) }, fuel) == string_views(conds@));
        if conds.len() == 0 {
            return None;
        }
        let mut out: Vec<String> = Vec::new();
        let mut q: usize = conds.len();
        while q > 0
            invariant
                q <= conds@.len(),
                string_views(out@) == string_views(conds@).subrange(q as int, conds@.len() as int).reverse(),
            decreases q,
        {
            q = q - 1;
            let ghost before = string_views(out@);
            out.push(conds[q].clone());
            assert(string_views(out@) =~= before.push(conds@[q as int]@));
            assert(string_views(out@) =~= string_views(conds@).subrange(q as int, conds@.len() as int).reverse());
        }
        assert(string_views(conds@).subrange(0, conds@.len() as int) =~= string_views(conds@));
        Some(out)
    }
}

proof fn lemma_count_one(v: Seq<bool>, b: int)
    requires
        0 <= b < v.len(),
        forall|j: int| 0 <= j < v.len() ==> #[trigger] v[j] == (j == b),
    ensures
        count_row(v) == 1,
    decreases v.len(),
{
    if v.len() - 1 == b {
        assert forall|j: int| 0 <= j < v.drop_last().len() implies !(#[trigger] v.drop_last()[j]) by {
            assert(v.drop_last()[j] == v[j]);
        }
        lemma_count_zero(v.drop_last());
    } else {
        assert forall|j: int| 0 <= j < v.drop_last().len() implies #[trigger] v.drop_last()[j] == (j == b) by {
            assert(v.drop_last()[j] == v[j]);
        }
        lemma_count_one(v.drop_last(), b);
    }
}

proof fn lemma_count_zero(v: Seq<bool>)
    requires
        forall|j: int| 0 <= j < v.len() ==> !(#[trigger] v[j]),
    ensures
        count_row(v) == 0,
    decreases v.len(),
{
    if v.len() > 0 {
        assert forall|j: int| 0 <= j < v.drop_last().len() implies !(#[trigger] v.drop_last()[j]) by {
            assert(v.drop_last()[j] == v[j]);
        }
        lemma_count_zero(v.drop_last());
    }
}


fn concat3(a: &str, b: &str, c: &str) -> (r: String)
    ensures
        r@ == a@ + b@ + c@,
{
    let mut s = String::from_str(a);
    s.append(b);
    s.append(c);
    s
}

fn defines_exec(t: &str, var: &str) -> (r: bool)
    ensures
        r == defines(t@, var@),
{
    proof {
        reveal_strlit("");
    }
    let p1 = concat3("var ", var, " ");
    let p2 = concat3("var ", var, "=");
    let p3 = concat3(" ", var, " =");
    let p4 = concat3(" ", var, "\n=");
    let hit = starts_with(t, p1.as_str()) || starts_with(t, p2.as_str()) || contains(t, p3.as_str()) || contains(
        t,
        p4.as_str(),
    );
    if !hit {
        return false;
    }
    match find_char(t, '=') {
        Some(eq) => {
            let lhs = trim(t.substring_char(0, eq));
            let s1 = concat3(" ", var, "");
            let s2 = concat3("var ", var, "");
            assert(s1@ =~= " "@ + var@);
            assert(s2@ =~= "var "@ + var@);
            str_eq(lhs.as_str(), var) || ends_with(lhs.as_str(), s1.as_str()) || starts_with(lhs.as_str(), s2.as_str())
        },
        None => false,
    }
}

fn definition_line_exec(lines: &Vec<String>, var: &str, up_to: usize) -> (r: Option<usize>)
    ensures
        match r {
            Some(d) => definition_line(string_views(lines@), var@, up_to, 0) == Some(d as int),
            None => definition_line(string_views(lines@), var@, up_to, 0) is None,
        },
{
    let ghost lv = string_views(lines@);
    let mut i: usize = 0;
    while i < lines.len()
        invariant
            i <= lines@.len(),
            lv == string_views(lines@),
            definition_line(lv, var@, up_to, 0) == definition_line(lv, var@, up_to, i as int),
        decreases lines.len() - i,
    {
        if i + 1 >= up_to {
            return None;
        }
        let t = trim(lines[i].as_str());
        assert(lv[i as int] == lines@[i as int]@);
        if defines_exec(t.as_str(), var) {
            return Some(i + 1);
        }
        i = i + 1;
    }
    None
}

fn names_variable_exec(a: &str) -> (r: bool)
    ensures
        r == names_variable(a@),
{
    let n = a.unicode_len();
    if n == 0 {
        return false;
    }
    let mut i: usize = 0;
    while i < n
        invariant
            n == a@.len(),
            i <= n,
            forall|k: int| 0 <= k < i ==> alphanumeric(#[trigger] a@[k]) || a@[k] == '_' || a@[k] == '.',
        decreases n - i,
    {
        let c = a.get_char(i);
        if !(is_alnum(c) || c == '_' || c == '.') {
            return false;
        }
        i = i + 1;
    }
    let c0 = a.get_char(0);
    !('0' <= c0 && c0 <= '9')
}

fn arg_flow_exec(lines: &Vec<String>, args: &Vec<String>, line: usize, out: &mut Vec<String>)
    ensures
        string_views(final(out)@) == string_views(old(out)@) + arg_flow(string_views(lines@), string_views(args@), line),
{
    let ghost lv = string_views(lines@);
    let ghost av = string_views(args@);
    let ghost o0 = string_views(out@);
    let mut k: usize = 0;
    assert(av.subrange(0, 0) =~= Seq::<Seq<char>>::empty());
    assert(o0 =~= o0 + Seq::<Seq<char>>::empty());
    while k < args.len()
        invariant
            k <= args@.len(),
            lv == string_views(lines@),
            av == string_views(args@),
            string_views(out@) == o0 + arg_flow(lv, av.subrange(0, k as int), line),
        decreases args.len() - k,
    {
        let ghost before = string_views(out@);
        assert(av.subrange(0, k + 1).drop_last() =~= av.subrange(0, k as int));
        assert(av.subrange(0, k + 1).last() == args@[k as int]@);
        let a = trim(args[k].as_str());
        if names_variable_exec(a.as_str()) {
            match definition_line_exec(lines, a.as_str(), line) {
                Some(d) => {
                    let mut s = a.clone();
                    s.append(" from L");
                    let ds = decimal_string(d);
                    s.append(ds.as_str());
                    out.push(s);
                    assert(string_views(out@) =~= before.push(a@ + " from L"@ + decimal(d as nat)));
                },
                None => {
                    assert(string_views(out@) =~= before + Seq::<Seq<char>>::empty());
                },
            }
        } else {
            assert(string_views(out@) =~= before + Seq::<Seq<char>>::empty());
        }
        assert(string_views(out@) =~= o0 + arg_flow(lv, av.subrange(0, k + 1), line));
        k = k + 1;
    }
    assert(av.subrange(0, args@.len() as int) =~= av);
}

impl PdgContext {
    /// Where the variables handed to calls on line `line` of file `file`
    /// were defined (see `data_context`); none for a file without an
    /// entry. Every word of the line's block that holds both parentheses
    /// must have its first `(` before its last `)`.
    pub fn get_data_context(&self, file: &str, line: usize) -> (r: Option<Vec<String>>)
        requires
            match self.entry(file@) {
                Some(e) => match line_words(e.0, e.1, line) {
                    Some(ws) => parens_ordered(ws),
                    None => true,
                },
                None => true,
            },
        ensures
            match self.entry(file@) {
                None => r is None,
                Some(e) => match data_context(e.0, e.1, line) {
                    None => r is None,
                    Some(fs) => r matches Some(v) && string_views(v@) == fs,
                },
            },
    {
        let k = match entry_index(&self.files, file) {
            Some(k) => k,
            None => {
                return None;
            },
        };
        let g = &self.files[k].cfg;
        let lines = split_lines(self.files[k].source.as_str());
        let ghost lv = string_views(lines@);
        let b = match block_at_line_exec(g, line) {
            Some(b) => b,
            None => {
                return None;
            },
        };
        let bb = cfg_block_at(g, b);
        let text = block_text_exec(&lines, bb);
        let words = split_words(text.as_str());
        let ghost wv = string_views(words@);
        assert(parens_ordered(wv));
        let mut out: Vec<String> = Vec::new();
        let mut i: usize = 0;
        assert(wv.subrange(0, 0) =~= Seq::<Seq<char>>::empty());
        assert(string_views(out@) =~= Seq::<Seq<char>>::empty());
        while i < words.len()
            invariant
                i <= words@.len(),
                lv == string_views(lines@),
                wv == string_views(words@),
                parens_ordered(wv),
                string_views(out@) == words_flow(lv, wv.subrange(0, i as int), line),
            decreases words.len() - i,
        {
            let ghost before = string_views(out@);
            assert(wv.subrange(0, i + 1).drop_last() =~= wv.subrange(0, i as int));
            assert(wv.subrange(0, i + 1).last() == words@[i as int]@);
            let w = words[i].as_str();
            assert(w@ == wv[i as int]);
            match find_char(w, '(') {
                Some(a) => match rfind_char(w, ')') {
                    Some(c) => {
                        let args = w.substring_char(a + 1, c);
                        if args.unicode_len() > 0 {
                            let pieces = split_commas(args);
                            arg_flow_exec(&lines, &pieces, line, &mut out);
                        } else {
                            assert(string_views(out@) =~= before + Seq::<Seq<char>>::empty());
                        }
                    },
                    None => {
                        assert(string_views(out@) =~= before + Seq::<Seq<char>>::empty());
                    },
                },
                None => {
                    assert(string_views(out@) =~= before + Seq::<Seq<char>>::empty());
                },
            }
            assert(string_views(out@) =~= words_flow(lv, wv.subrange(0, i + 1), line));
            i = i + 1;
        }
        assert(wv.subrange(0, words@.len() as int) =~= wv);
        if out.len() == 0 {
            return None;
        }
        Some(out)
    }
}

} // verus!
