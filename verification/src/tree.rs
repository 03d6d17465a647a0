//! The file tree of an index, drawn with box-drawing connectors, optionally
//! with the top-level symbols of each file.
use vstd::prelude::*;

use crate::chunking::Chunk;
use crate::graph::{DependencyGraph, FileNode, Symbol};
use crate::pattern::sources;
use crate::text::{
    append, append_str, lex_lt, lex_lt_exec, split_on, split_on_exec, str_to_chars, views,
};

verus! {

/// What the tree shows: only directories, down to a depth, with symbols,
/// and only files of some languages.
pub struct TreeOptions<'a> {
    pub dirs_only: bool,
    pub max_depth: Option<usize>,
    pub symbols: bool,
    pub langs: Option<&'a [String]>,
}

// ---------- symbols ----------

/// Symbol kinds listed next to a file.
pub const TOP_LEVEL_KINDS: [&'static str; 10] = [
    "fn",
    "function",
    "struct",
    "class",
    "enum",
    "trait",
    "interface",
    "type",
    "impl",
    "module",
];

/// Most symbol names listed for one file.
pub const MAX_LISTED_SYMBOLS: usize = 6;

/// A symbol as its name and kind.
pub open spec fn symbol_view(s: Symbol) -> (Seq<char>, Seq<char>) {
    (s.name@, s.kind@)
}

/// The symbols of a file as names and kinds.
pub open spec fn symbols_view(v: Seq<Symbol>) -> Seq<(Seq<char>, Seq<char>)> {
    v.map_values(|s: Symbol| symbol_view(s))
}

/// The graph as the list of files, each with its symbols.
pub open spec fn graph_view(g: DependencyGraph) -> Seq<(Seq<char>, Seq<(Seq<char>, Seq<char>)>)> {
    g.files@.map_values(|f: FileNode| (f.path@, symbols_view(f.symbols@)))
}

/// The symbols of the first file of `files` at `path`.
pub open spec fn file_symbols(
    files: Seq<(Seq<char>, Seq<(Seq<char>, Seq<char>)>)>,
    path: Seq<char>,
) -> Option<Seq<(Seq<char>, Seq<char>)>>
    decreases files.len(),
{
    if files.len() == 0 {
        None
    } else if files[0].0 == path {
        Some(files[0].1)
    } else {
        file_symbols(files.drop_first(), path)
    }
}

/// The names of the symbols whose kind is a top-level kind, in order.
pub open spec fn top_level_names(syms: Seq<(Seq<char>, Seq<char>)>) -> Seq<Seq<char>>
    decreases syms.len(),
{
    if syms.len() == 0 {
        Seq::empty()
    } else {
        let p = top_level_names(syms.drop_last());
        if sources(TOP_LEVEL_KINDS@).contains(syms.last().1) {
            p.push(syms.last().0)
        } else {
            p
        }
    }
}

/// The first six top-level symbol names of the file at `path`, joined by
/// `", "`, followed by `", +n"` when `n` more were left out; `None` when the
/// file is unknown or has none.
pub open spec fn top_level_symbols_spec(
    files: Seq<(Seq<char>, Seq<(Seq<char>, Seq<char>)>)>,
    path: Seq<char>,
) -> Option<Seq<char>> {
    match file_symbols(files, path) {
        None => None,
        Some(syms) => {
            let all = top_level_names(syms);
            if all.len() == 0 {
                None
            } else {
                let shown = if all.len() <= MAX_LISTED_SYMBOLS {
                    all
                } else {
                    all.take(MAX_LISTED_SYMBOLS as int)
                };
                let extra = (all.len() - shown.len()) as nat;
                let listed = crate::text::join(shown, ", "@);
                Some(
                    if extra > 0 {
                        listed + ", +"@ + crate::text::decimal(extra)
                    } else {
                        listed
                    },
                )
            }
        },
    }
}

fn is_top_level_kind(kind: &String) -> (b: bool)
    ensures
        b == sources(TOP_LEVEL_KINDS@).contains(kind@),
{
    let ghost v = sources(TOP_LEVEL_KINDS@);
    let k = str_to_chars(kind.as_str());
    let mut i: usize = 0;
    while i < TOP_LEVEL_KINDS.len()
        invariant
            i <= TOP_LEVEL_KINDS@.len(),
            v == sources(TOP_LEVEL_KINDS@),
            k@ == kind@,
            forall|j: int| 0 <= j < i ==> v[j] != kind@,
        decreases TOP_LEVEL_KINDS@.len() - i,
    {
        if crate::text::eq_str(&k, TOP_LEVEL_KINDS[i]) {
            assert(v[i as int] == kind@);
            return true;
        }
        i = i + 1;
    }
    false
}

/// The position of the first file at `file_path`.
fn find_file(graph: &DependencyGraph, file_path: &[char]) -> (r: Option<usize>)
    ensures
        r matches Some(i) ==> i < graph.files@.len() && file_symbols(graph_view(*graph), file_path@)
            == Some(symbols_view(graph.files@[i as int].symbols@)),
        r is None ==> file_symbols(graph_view(*graph), file_path@) is None,
{
    let ghost gv = graph_view(*graph);
    let mut fi: usize = 0;
    assert(gv.skip(0) =~= gv);
    while fi < graph.files.len()
        invariant
            fi <= graph.files@.len(),
            gv == graph_view(*graph),
            file_symbols(gv.skip(fi as int), file_path@) == file_symbols(gv, file_path@),
        decreases graph.files@.len() - fi,
    {
        assert(gv.skip(fi as int).drop_first() =~= gv.skip(fi + 1));
        let path = str_to_chars(graph.files[fi].path.as_str());
        if crate::text::chars_eq(&path, file_path) {
            return Some(fi);
        }
        fi = fi + 1;
    }
    assert(gv.skip(fi as int) =~= Seq::<(Seq<char>, Seq<(Seq<char>, Seq<char>)>)>::empty());
    None
}

/// The top-level symbols of the file at `file_path`, as listed in the tree.
pub fn top_level_symbols(graph: &DependencyGraph, file_path: &[char]) -> (r: Option<Vec<char>>)
    ensures
        r matches Some(s) ==> top_level_symbols_spec(graph_view(*graph), file_path@) == Some(s@),
        r is None ==> top_level_symbols_spec(graph_view(*graph), file_path@) is None,
{
    let ghost gv = graph_view(*graph);
    let fi = match find_file(graph, file_path) {
        Some(i) => i,
        None => return None,
    };
    let symbols = &graph.files[fi].symbols;
    let ghost sv = symbols_view(symbols@);
    assert(file_symbols(gv, file_path@) == Some(sv));
    let mut names: Vec<Vec<char>> = Vec::new();
    let mut si: usize = 0;
    assert(sv.take(0) =~= Seq::<(Seq<char>, Seq<char>)>::empty());
    assert(views(names@) =~= Seq::<Seq<char>>::empty());
    while si < symbols.len()
        invariant
            si <= symbols@.len(),
            sv == symbols_view(symbols@),
            views(names@) == top_level_names(sv.take(si as int)),
            names@.len() <= si,
        decreases symbols@.len() - si,
    {
        assert(sv.take(si + 1).drop_last() =~= sv.take(si as int));
        assert(sv.take(si + 1).last() == symbol_view(symbols@[si as int]));
        if is_top_level_kind(&symbols[si].kind) {
            let ghost before = views(names@);
            let n = str_to_chars(symbols[si].name.as_str());
            names.push(n);
            assert(views(names@) =~= before.push(symbols@[si as int].name@));
        }
        si = si + 1;
    }
    assert(sv.take(si as int) =~= sv);
    let ghost all = views(names@);
    if names.len() == 0 {
        return None;
    }
    let total = names.len();
    let mut shown: Vec<Vec<char>> = Vec::new();
    let mut k: usize = 0;
    let limit = if total <= MAX_LISTED_SYMBOLS {
        total
    } else {
        MAX_LISTED_SYMBOLS
    };
    assert(views(shown@) =~= Seq::<Seq<char>>::empty());
    while k < limit
        invariant
            k <= limit <= total,
            total == names@.len(),
            all == views(names@),
            views(shown@) == all.take(k as int),
        decreases limit - k,
    {
        let ghost before = views(shown@);
        let copy = crate::text::slice(&names[k], 0, names[k].len());
        assert(copy@ =~= all[k as int]);
        shown.push(copy);
        assert(views(shown@) =~= before.push(all[k as int]));
        assert(views(shown@) =~= all.take(k + 1));
        k = k + 1;
    }
    proof {
        if total <= MAX_LISTED_SYMBOLS {
            assert(all.take(limit as int) =~= all);
        }
    }
    let mut sep: Vec<char> = Vec::new();
    append_str(&mut sep, ", ");
    let mut s = crate::text::join_exec(&shown, &sep);
    assert(shown@.map_values(|l: Vec<char>| l@) =~= views(shown@));
    let extra = total - limit;
    if extra > 0 {
        append_str(&mut s, ", +");
        let d = crate::text::decimal_exec(extra);
        append(&mut s, &d);
    }
    Some(s)
}

// ---------- the paths shown ----------

/// A chunk's language passes the filter: any language without one, else
/// a listed one.
pub open spec fn lang_selected(language: Option<Seq<char>>, langs: Option<Seq<Seq<char>>>) -> bool {
    match langs {
        None => true,
        Some(fs) => match language {
            Some(l) => fs.contains(l),
            None => false,
        },
    }
}

/// The first position of `list` from `k` on whose entry is not below `x`.
pub open spec fn sorted_slot(list: Seq<Seq<char>>, x: Seq<char>, k: int) -> int
    decreases list.len() - k,
{
    if k >= list.len() || !lex_lt(list[k], x) {
        k
    } else {
        sorted_slot(list, x, k + 1)
    }
}

/// `list` with `x` put in its sorted place, unless it is there already.
pub open spec fn insert_unique(list: Seq<Seq<char>>, x: Seq<char>) -> Seq<Seq<char>> {
    let k = sorted_slot(list, x, 0);
    if k < list.len() && list[k] == x {
        list
    } else {
        list.insert(k, x)
    }
}

/// The file paths of the chunks that pass the language filter, sorted and
/// each once.
pub open spec fn selected_paths(
    chunks: Seq<crate::chunking::ChunkView>,
    langs: Option<Seq<Seq<char>>>,
) -> Seq<Seq<char>>
    decreases chunks.len(),
{
    if chunks.len() == 0 {
        Seq::empty()
    } else {
        let p = selected_paths(chunks.drop_last(), langs);
        if lang_selected(chunks.last().language, langs) {
            insert_unique(p, chunks.last().file_path)
        } else {
            p
        }
    }
}

/// The language filter of the options as text.
pub open spec fn langs_view(langs: Option<&[String]>) -> Option<Seq<Seq<char>>> {
    match langs {
        Some(fs) => Some(crate::tokens::string_views(fs@)),
        None => None,
    }
}

proof fn lemma_sorted_slot_bounds(list: Seq<Seq<char>>, x: Seq<char>, k: int)
    requires
        0 <= k <= list.len(),
    ensures
        k <= sorted_slot(list, x, k) <= list.len(),
    decreases list.len() - k,
{
    if k < list.len() && lex_lt(list[k], x) {
        lemma_sorted_slot_bounds(list, x, k + 1);
    }
}

fn insert_unique_exec(list: &mut Vec<Vec<char>>, x: &[char])
    ensures
        views(final(list)@) == insert_unique(views(old(list)@), x@),
{
    let ghost lv = views(list@);
    let mut k: usize = 0;
    while k < list.len() && lex_lt_exec(&list[k], x)
        invariant
            k <= list@.len(),
            lv == views(list@),
            sorted_slot(lv, x@, k as int) == sorted_slot(lv, x@, 0),
        decreases list@.len() - k,
    {
        assert(lv[k as int] == list@[k as int]@);
        k = k + 1;
    }
    proof {
        if k < list@.len() {
            assert(lv[k as int] == list@[k as int]@);
        }
    }
    if k < list.len() && crate::text::chars_eq(&list[k], x) {
        assert(lv[k as int] == x@);
        return;
    }
    let copy = crate::text::slice(x, 0, x.len());
    assert(copy@ =~= x@);
    list.insert(k, copy);
    assert(views(list@) =~= lv.insert(k as int, x@));
}

/// The sorted distinct file paths of the chunks that pass the filter.
fn collect_paths(chunks: &[Chunk], langs: Option<&[String]>) -> (out: Vec<Vec<char>>)
    ensures
        views(out@) == selected_paths(crate::chunking::chunk_views(chunks@), langs_view(langs)),
{
    let ghost cv = crate::chunking::chunk_views(chunks@);
    let mut out: Vec<Vec<char>> = Vec::new();
    let mut i: usize = 0;
    assert(cv.take(0) =~= Seq::<crate::chunking::ChunkView>::empty());
    assert(views(out@) =~= Seq::<Seq<char>>::empty());
    while i < chunks.len()
        invariant
            i <= chunks@.len(),
            cv == crate::chunking::chunk_views(chunks@),
            views(out@) == selected_paths(cv.take(i as int), langs_view(langs)),
        decreases chunks@.len() - i,
    {
        assert(cv.take(i + 1).drop_last() =~= cv.take(i as int));
        assert(cv.take(i + 1).last() == chunks@[i as int]@);
        let c = &chunks[i];
        let selected = match langs {
            None => true,
            Some(filters) => match &c.language {
                Some(l) => {
                    let lc = str_to_chars(l.as_str());
                    let ghost fv = crate::tokens::string_views(filters@);
                    let mut found = false;
                    let mut j: usize = 0;
                    while j < filters.len()
                        invariant
                            j <= filters@.len(),
                            fv == crate::tokens::string_views(filters@),
                            lc@ == l@,
                            found <==> exists|m: int| 0 <= m < j && fv[m] == l@,
                        decreases filters@.len() - j,
                    {
                        let f = str_to_chars(filters[j].as_str());
                        assert(fv[j as int] == filters@[j as int]@);
                        if crate::text::chars_eq(&f, &lc) {
                            found = true;
                        }
                        j = j + 1;
                    }
                    proof {
                        if found {
                            let m = choose|m: int| 0 <= m < j && fv[m] == l@;
                            assert(fv.contains(l@));
                        } else {
                            assert(!fv.contains(l@));
                        }
                    }
                    found
                },
                None => false,
            },
        };
        if selected {
            let p = str_to_chars(c.file_path.as_str());
            insert_unique_exec(&mut out, &p);
        }
        i = i + 1;
    }
    assert(cv.take(i as int) =~= cv);
    out
}

// ---------- the tree of paths ----------

/// A directory or file of the tree: its entries by name, in name order,
/// whether a path ends here, and the last such path.
pub struct Node {
    pub children: Vec<(String, Node)>,
    pub is_file: bool,
    pub file_path: Option<String>,
}

/// A node of the tree as text.
pub struct PathTree {
    pub children: Seq<(Seq<char>, PathTree)>,
    pub is_file: bool,
    pub file_path: Option<Seq<char>>,
}

/// The node `n` as text.
pub open spec fn node_view(n: Node) -> PathTree
    decreases n, 1nat,
{
    PathTree {
        children: children_view(n.children@),
        is_file: n.is_file,
        file_path: crate::chunking::opt_string_view(n.file_path),
    }
}

/// The entries `cs` as text.
pub open spec fn children_view(cs: Seq<(String, Node)>) -> Seq<(Seq<char>, PathTree)>
    decreases cs, 0nat,
{
    if cs.len() == 0 {
        Seq::empty()
    } else {
        children_view(cs.drop_last()).push((cs.last().0@, node_view(cs.last().1)))
    }
}

proof fn lemma_children_view(cs: Seq<(String, Node)>)
    ensures
        children_view(cs).len() == cs.len(),
        forall|i: int|
            0 <= i < cs.len() ==> #[trigger] children_view(cs)[i] == (cs[i].0@, node_view(cs[i].1)),
    decreases cs.len(),
{
    if cs.len() > 0 {
        lemma_children_view(cs.drop_last());
    }
}

/// A node with no entries and no path.
pub open spec fn empty_tree() -> PathTree {
    PathTree { children: Seq::empty(), is_file: false, file_path: None }
}

/// The first position of `cs` from `k` on whose name is not below `name`.
pub open spec fn child_slot(cs: Seq<(Seq<char>, PathTree)>, name: Seq<char>, k: int) -> int
    decreases cs.len() - k,
{
    if k >= cs.len() || !lex_lt(cs[k].0, name) {
        k
    } else {
        child_slot(cs, name, k + 1)
    }
}

/// `t` with the path whose components are `parts` added: each component is
/// found or created in name order, and the node of the last one marked as
/// a file at `path`.
pub open spec fn insert_parts(t: PathTree, parts: Seq<Seq<char>>, path: Seq<char>) -> PathTree
    decreases parts.len(),
{
    if parts.len() == 0 {
        t
    } else {
        let name = parts[0];
        let k = child_slot(t.children, name, 0);
        let found = k < t.children.len() && t.children[k].0 == name;
        let child = if found {
            t.children[k].1
        } else {
            empty_tree()
        };
        let updated = if parts.len() == 1 {
            PathTree { is_file: true, file_path: Some(path), ..child }
        } else {
            insert_parts(child, parts.drop_first(), path)
        };
        let cs = if found {
            t.children.update(k, (name, updated))
        } else {
            t.children.insert(k, (name, updated))
        };
        PathTree { children: cs, ..t }
    }
}

/// The non-empty `/`-separated components of a path.
pub open spec fn path_parts(path: Seq<char>) -> Seq<Seq<char>> {
    split_on(path, '/').filter(|p: Seq<char>| p.len() > 0)
}

/// The tree of the paths `ps`, added in order.
pub open spec fn tree_of(ps: Seq<Seq<char>>) -> PathTree
    decreases ps.len(),
{
    if ps.len() == 0 {
        empty_tree()
    } else {
        insert_parts(tree_of(ps.drop_last()), path_parts(ps.last()), ps.last())
    }
}

proof fn lemma_child_slot_bounds(cs: Seq<(Seq<char>, PathTree)>, name: Seq<char>, k: int)
    requires
        0 <= k <= cs.len(),
    ensures
        k <= child_slot(cs, name, k) <= cs.len(),
    decreases cs.len() - k,
{
    if k < cs.len() && lex_lt(cs[k].0, name) {
        lemma_child_slot_bounds(cs, name, k + 1);
    }
}

/// Where `name` is or goes among the entries, and whether it is there.
fn find_child(children: &Vec<(String, Node)>, name: &[char]) -> (r: (usize, bool))
    ensures
        r.0 as int == child_slot(children_view(children@), name@, 0),
        r.1 == (r.0 < children@.len() && children_view(children@)[r.0 as int].0 == name@),
        r.0 <= children@.len(),
{
    let ghost cv = children_view(children@);
    proof {
        lemma_children_view(children@);
        lemma_child_slot_bounds(cv, name@, 0);
    }
    let mut k: usize = 0;
    loop
        invariant
            k <= children@.len(),
            cv == children_view(children@),
            cv.len() == children@.len(),
            forall|i: int|
                0 <= i < children@.len() ==> #[trigger] cv[i] == (children@[i].0@, node_view(
                    children@[i].1,
                )),
            child_slot(cv, name@, k as int) == child_slot(cv, name@, 0),
        decreases children@.len() - k,
    {
        if k == children.len() {
            return (k, false);
        }
        let n = str_to_chars(children[k].0.as_str());
        assert(cv[k as int].0 == n@);
        if !lex_lt_exec(&n, name) {
            let eq = crate::text::chars_eq(&n, name);
            return (k, eq);
        }
        k = k + 1;
    }
}

/// `root` with the file at `path` added under its `/`-separated components.
fn insert_path(root: Node, path: &[char]) -> (r: Node)
    ensures
        node_view(r) == insert_parts(node_view(root), path_parts(path@), path@),
{
    let parts = path_parts_exec(path);
    assert(views(parts@).skip(0) =~= views(parts@));
    insert_parts_exec(root, &parts, 0, path)
}

/// `node` with the path of components `parts[k..]` added.
fn insert_parts_exec(node: Node, parts: &Vec<Vec<char>>, k: usize, path: &[char]) -> (r: Node)
    requires
        k <= parts@.len(),
    ensures
        node_view(r) == insert_parts(node_view(node), views(parts@).skip(k as int), path@),
    decreases parts@.len() - k,
{
    let ghost rest = views(parts@).skip(k as int);
    if k == parts.len() {
        assert(rest.len() == 0);
        return node;
    }
    assert(rest[0] == parts@[k as int]@);
    assert(rest.drop_first() =~= views(parts@).skip(k + 1));
    let ghost t = node_view(node);
    let mut node = node;
    let name = &parts[k];
    let (slot, found) = find_child(&node.children, name);
    proof {
        lemma_children_view(node.children@);
    }
    let ghost old_children = node.children@;
    let child = if found {
        let (_, c) = node.children.remove(slot);
        c
    } else {
        Node { children: Vec::new(), is_file: false, file_path: None }
    };
    proof {
        lemma_children_view(child.children@);
        if !found {
            assert(children_view(child.children@) =~= Seq::<(Seq<char>, PathTree)>::empty());
            assert(node_view(child) == empty_tree());
        } else {
            assert(node_view(child) == t.children[slot as int].1);
        }
    }
    let updated = if k + 1 == parts.len() {
        let p = crate::text::chars_to_string(path);
        Node { children: child.children, is_file: true, file_path: Some(p) }
    } else {
        insert_parts_exec(child, parts, k + 1, path)
    };
    let entry_name = crate::text::chars_to_string(name);
    node.children.insert(slot, (entry_name, updated));
    proof {
        lemma_children_view(node.children@);
        let cs = if found {
            t.children.update(slot as int, (name@, node_view(updated)))
        } else {
            t.children.insert(slot as int, (name@, node_view(updated)))
        };
        assert(children_view(node.children@) =~= cs);
    }
    node
}

// ---------- drawing ----------

/// The options that shape the drawing.
pub struct RenderOpts {
    pub dirs_only: bool,
    pub max_depth: Option<usize>,
    pub symbols: bool,
}

/// The drawing options of `o`.
pub open spec fn render_opts(o: &TreeOptions) -> RenderOpts {
    RenderOpts { dirs_only: o.dirs_only, max_depth: o.max_depth, symbols: o.symbols }
}

/// An entry is drawn: always, or with `dirs_only` unless it is a file
/// without entries of its own.
pub open spec fn visible(t: PathTree, dirs_only: bool) -> bool {
    !dirs_only || !t.is_file || t.children.len() > 0
}

/// Some entry of `cs` from `i` on is drawn.
pub open spec fn visible_from(cs: Seq<(Seq<char>, PathTree)>, i: int, dirs_only: bool) -> bool
    decreases cs.len() - i,
{
    if i >= cs.len() || i < 0 {
        false
    } else if visible(cs[i].1, dirs_only) {
        true
    } else {
        visible_from(cs, i + 1, dirs_only)
    }
}

/// Text drawn so far, and the indentation prefix as it stands.
pub struct RenderState {
    pub out: Seq<char>,
    pub prefix: Seq<char>,
}

/// `s` without its last `n` characters (all of them when shorter).
pub open spec fn pop_chars(s: Seq<char>, n: nat) -> Seq<char> {
    if s.len() >= n {
        s.take(s.len() - n)
    } else {
        Seq::empty()
    }
}

/// `d + 1`, kept within `usize`.
pub open spec fn sat_inc(d: usize) -> usize {
    if d < usize::MAX {
        (d + 1) as usize
    } else {
        d
    }
}

/// `"  (symbols)"` after a file entry when symbols are asked for and the
/// file has some; nothing otherwise.
pub open spec fn symbols_note(
    child: PathTree,
    files: Seq<(Seq<char>, Seq<(Seq<char>, Seq<char>)>)>,
    o: RenderOpts,
) -> Seq<char> {
    if o.symbols && child.is_file {
        match child.file_path {
            Some(p) => match top_level_symbols_spec(files, p) {
                Some(syms) => "  ("@ + syms + ")"@,
                None => Seq::empty(),
            },
            None => Seq::empty(),
        }
    } else {
        Seq::empty()
    }
}

/// The connector before an entry: none at the root, `└── ` for the last
/// drawn entry, `├── ` otherwise.
pub open spec fn connector(is_root: bool, is_last: bool) -> Seq<char> {
    if is_root {
        Seq::empty()
    } else if is_last {
        "└── "@
    } else {
        "├── "@
    }
}

/// What the prefix grows by below an entry: nothing at the root, spaces
/// below the last entry, a vertical bar otherwise.
pub open spec fn indent(is_root: bool, is_last: bool) -> Seq<char> {
    if is_root {
        Seq::empty()
    } else if is_last {
        "    "@
    } else {
        "│   "@
    }
}

/// The name of an entry, with `/` for directories.
pub open spec fn display_name(name: Seq<char>, child: PathTree) -> Seq<char> {
    if child.children.len() > 0 || !child.is_file {
        name + "/"@
    } else {
        name
    }
}

/// Draws the entries of `t` below `depth` (nothing past the depth limit).
pub open spec fn render_tree(
    t: PathTree,
    st: RenderState,
    is_root: bool,
    depth: usize,
    files: Seq<(Seq<char>, Seq<(Seq<char>, Seq<char>)>)>,
    o: RenderOpts,
) -> RenderState
    decreases t, t.children.len() + 1,
{
    if o.max_depth is Some && depth > o.max_depth->0 {
        st
    } else {
        render_children(t, 0, st, is_root, depth, files, o)
    }
}

/// Draws the entries of `t` from the `i`-th on: each drawn entry gets a
/// line (prefix, connector, name, symbols), then its own entries below it
/// with the prefix grown by `indent`; afterwards as many characters are
/// taken off the prefix as `indent` added.
pub open spec fn render_children(
    t: PathTree,
    i: int,
    st: RenderState,
    is_root: bool,
    depth: usize,
    files: Seq<(Seq<char>, Seq<(Seq<char>, Seq<char>)>)>,
    o: RenderOpts,
) -> RenderState
    decreases t, t.children.len() - i,
{
    if i < 0 || i >= t.children.len() {
        st
    } else {
        let name = t.children[i].0;
        let child = t.children[i].1;
        if !visible(child, o.dirs_only) {
            render_children(t, i + 1, st, is_root, depth, files, o)
        } else {
            let is_last = !visible_from(t.children, i + 1, o.dirs_only);
            let out1 = st.out + st.prefix + connector(is_root, is_last) + display_name(name, child)
                + symbols_note(child, files, o) + "\n"@;
            let st2 = if child.children.len() > 0 {
                let push = indent(is_root, is_last);
                let inner = render_tree(
                    child,
                    RenderState { out: out1, prefix: st.prefix + push },
                    false,
                    sat_inc(depth),
                    files,
                    o,
                );
                RenderState { out: inner.out, prefix: pop_chars(inner.prefix, push.len()) }
            } else {
                RenderState { out: out1, prefix: st.prefix }
            };
            render_children(t, i + 1, st2, is_root, depth, files, o)
        }
    }
}

/// Drawing a tree leaves the indentation prefix as it found it.
pub proof fn lemma_render_tree_keeps_prefix(
    t: PathTree,
    st: RenderState,
    is_root: bool,
    depth: usize,
    files: Seq<(Seq<char>, Seq<(Seq<char>, Seq<char>)>)>,
    o: RenderOpts,
)
    ensures
        render_tree(t, st, is_root, depth, files, o).prefix == st.prefix,
    decreases t, t.children.len() + 1,
{
    if !(o.max_depth is Some && depth > o.max_depth->0) {
        lemma_render_children_keeps_prefix(t, 0, st, is_root, depth, files, o);
    }
}

/// Drawing the entries of a tree leaves the indentation prefix as it found
/// it.
pub proof fn lemma_render_children_keeps_prefix(
    t: PathTree,
    i: int,
    st: RenderState,
    is_root: bool,
    depth: usize,
    files: Seq<(Seq<char>, Seq<(Seq<char>, Seq<char>)>)>,
    o: RenderOpts,
)
    ensures
        render_children(t, i, st, is_root, depth, files, o).prefix == st.prefix,
    decreases t, t.children.len() - i,
{
    if 0 <= i < t.children.len() {
        let name = t.children[i].0;
        let child = t.children[i].1;
        if !visible(child, o.dirs_only) {
            lemma_render_children_keeps_prefix(t, i + 1, st, is_root, depth, files, o);
        } else {
            let is_last = !visible_from(t.children, i + 1, o.dirs_only);
            let out1 = st.out + st.prefix + connector(is_root, is_last) + display_name(name, child)
                + symbols_note(child, files, o) + "\n"@;
            let st2 = if child.children.len() > 0 {
                let push = indent(is_root, is_last);
                let inner_st = RenderState { out: out1, prefix: st.prefix + push };
                assert(child == t.children[i].1);
                lemma_render_tree_keeps_prefix(child, inner_st, false, sat_inc(depth), files, o);
                let inner = render_tree(child, inner_st, false, sat_inc(depth), files, o);
                assert(pop_chars(inner.prefix, push.len()) =~= st.prefix);
                RenderState { out: inner.out, prefix: pop_chars(inner.prefix, push.len()) }
            } else {
                RenderState { out: out1, prefix: st.prefix }
            };
            assert(st2.prefix == st.prefix);
            lemma_render_children_keeps_prefix(t, i + 1, st2, is_root, depth, files, o);
        }
    }
}

/// The file tree of the chunks that pass the language filter.
pub open spec fn render_spec(
    chunks: Seq<crate::chunking::ChunkView>,
    files: Seq<(Seq<char>, Seq<(Seq<char>, Seq<char>)>)>,
    langs: Option<Seq<Seq<char>>>,
    o: RenderOpts,
) -> Seq<char> {
    render_tree(
        tree_of(selected_paths(chunks, langs)),
        RenderState { out: Seq::empty(), prefix: Seq::empty() },
        true,
        0,
        files,
        o,
    ).out
}

/// Whether some entry from the `i`-th on is drawn.
fn visible_from_exec(children: &Vec<(String, Node)>, i: usize, dirs_only: bool) -> (b: bool)
    ensures
        b == visible_from(children_view(children@), i as int, dirs_only),
{
    let ghost cv = children_view(children@);
    proof {
        lemma_children_view(children@);
    }
    let mut k = i;
    while k < children.len()
        invariant
            i <= k,
            cv == children_view(children@),
            cv.len() == children@.len(),
            forall|j: int|
                0 <= j < children@.len() ==> #[trigger] cv[j] == (children@[j].0@, node_view(
                    children@[j].1,
                )),
            visible_from(cv, k as int, dirs_only) == visible_from(cv, i as int, dirs_only),
        decreases children@.len() - k,
    {
        let c = &children[k].1;
        assert(cv[k as int].1 == node_view(*c));
        proof {
            lemma_children_view(c.children@);
        }
        if !dirs_only || !c.is_file || c.children.len() > 0 {
            return true;
        }
        k = k + 1;
    }
    false
}

#[verifier::rlimit(40)]
fn render_node(
    node: &Node,
    out: &mut Vec<char>,
    prefix: &mut Vec<char>,
    is_root: bool,
    depth: usize,
    graph: &DependencyGraph,
    opts: &TreeOptions,
)
    ensures
        (RenderState { out: final(out)@, prefix: final(prefix)@ }) == render_tree(
            node_view(*node),
            RenderState { out: old(out)@, prefix: old(prefix)@ },
            is_root,
            depth,
            graph_view(*graph),
            render_opts(opts),
        ),
    decreases node,
{
    let ghost t = node_view(*node);
    let ghost files = graph_view(*graph);
    let ghost o = render_opts(opts);
    if let Some(max) = opts.max_depth {
        if depth > max {
            return;
        }
    }
    proof {
        lemma_children_view(node.children@);
    }
    let ghost st0 = RenderState { out: out@, prefix: prefix@ };
    let mut i: usize = 0;
    while i < node.children.len()
        invariant
            i <= node.children@.len(),
            t == node_view(*node),
            t.children.len() == node.children@.len(),
            forall|j: int|
                0 <= j < node.children@.len() ==> #[trigger] t.children[j] == (
                    node.children@[j].0@,
                    node_view(node.children@[j].1),
                ),
            files == graph_view(*graph),
            o == render_opts(opts),
            !(o.max_depth is Some && depth > o.max_depth->0),
            render_children(t, 0, st0, is_root, depth, files, o) == render_children(
                t,
                i as int,
                RenderState { out: out@, prefix: prefix@ },
                is_root,
                depth,
                files,
                o,
            ),
        decreases node.children@.len() - i,
    {
        let name = &node.children[i].0;
        let child = &node.children[i].1;
        assert(t.children[i as int].1 == node_view(*child));
        proof {
            lemma_children_view(child.children@);
        }
        let shown = !opts.dirs_only || !child.is_file || child.children.len() > 0;
        if shown {
            let is_last = !visible_from_exec(&node.children, i + 1, opts.dirs_only);
            let ghost cur = RenderState { out: out@, prefix: prefix@ };
            append(out, prefix);
            if is_root {
            } else if is_last {
                append_str(out, "└── ");
            } else {
                append_str(out, "├── ");
            }
            let name_chars = str_to_chars(name.as_str());
            append(out, &name_chars);
            if child.children.len() > 0 || !child.is_file {
                out.push('/');
            }
            if opts.symbols && child.is_file {
                match &child.file_path {
                    Some(path) => {
                        let pc = str_to_chars(path.as_str());
                        match top_level_symbols(graph, &pc) {
                            Some(syms) => {
                                append_str(out, "  (");
                                append(out, &syms);
                                out.push(')');
                            },
                            None => {},
                        }
                    },
                    None => {},
                }
            }
            out.push('\n');
            proof {
                reveal_strlit("/");
                reveal_strlit(")");
                reveal_strlit("\n");
            }
            let ghost out1 = cur.out + cur.prefix + connector(is_root, is_last) + display_name(
                name@,
                node_view(*child),
            ) + symbols_note(node_view(*child), files, o) + "\n"@;
            assert(out@ =~= out1);
            if child.children.len() > 0 {
                let push: &str = if is_root {
                    ""
                } else if is_last {
                    "    "
                } else {
                    "│   "
                };
                proof {
                    reveal_strlit("");
                }
                assert(push@ == indent(is_root, is_last));
                append_str(prefix, push);
                let next_depth = if depth < usize::MAX {
                    depth + 1
                } else {
                    depth
                };
                render_node(child, out, prefix, false, next_depth, graph, opts);
                let n = str_to_chars(push).len();
                let mut popped: usize = 0;
                let ghost pre = prefix@;
                while popped < n
                    invariant
                        popped <= n,
                        prefix@ == pop_chars(pre, popped as nat),
                    decreases n - popped,
                {
                    let ghost before = prefix@;
                    prefix.pop();
                    proof {
                        if pre.len() > popped {
                            assert(before.len() > 0);
                            assert(prefix@ =~= pop_chars(pre, (popped + 1) as nat));
                        } else {
                            assert(prefix@ =~= pop_chars(pre, (popped + 1) as nat));
                        }
                    }
                    popped = popped + 1;
                }
            }
        }
        i = i + 1;
    }
}

/// The non-empty `/`-separated components of `path`.
fn path_parts_exec(path: &[char]) -> (out: Vec<Vec<char>>)
    ensures
        views(out@) == path_parts(path@),
{
    let pieces = split_on_exec(path, '/');
    let ghost pv = views(pieces@);
    let mut out: Vec<Vec<char>> = Vec::new();
    let mut i: usize = 0;
    assert(pv.take(0).filter(|p: Seq<char>| p.len() > 0) =~= Seq::<Seq<char>>::empty());
    assert(views(out@) =~= Seq::<Seq<char>>::empty());
    while i < pieces.len()
        invariant
            i <= pieces@.len(),
            pv == views(pieces@),
            views(out@) == pv.take(i as int).filter(|p: Seq<char>| p.len() > 0),
        decreases pieces@.len() - i,
    {
        assert(pv.take(i + 1).drop_last() =~= pv.take(i as int));
        assert(pv.take(i + 1).last() == pieces@[i as int]@);
        reveal(Seq::filter);
        if pieces[i].len() > 0 {
            let ghost before = views(out@);
            let copy = crate::text::slice(&pieces[i], 0, pieces[i].len());
            assert(copy@ =~= pv[i as int]);
            out.push(copy);
            assert(views(out@) =~= before.push(pv[i as int]));
        }
        i = i + 1;
    }
    assert(pv.take(i as int) =~= pv);
    out
}

/// Draws the file tree of the chunks' files (those of the languages in
/// `opts.langs`, when given): directories before their entries, entries in
/// name order, `/` after directory names, box-drawing connectors, and the
/// top-level symbols of each file when `opts.symbols` is set.
pub fn render(chunks: &[Chunk], graph: &DependencyGraph, opts: &TreeOptions) -> (out: String)
    ensures
        out@ == render_spec(
            crate::chunking::chunk_views(chunks@),
            graph_view(*graph),
            langs_view(opts.langs),
            render_opts(opts),
        ),
{
    let paths = collect_paths(chunks, opts.langs);
    let ghost ps = views(paths@);
    let mut root = Node { children: Vec::new(), is_file: false, file_path: None };
    proof {
        lemma_children_view(root.children@);
        assert(children_view(root.children@) =~= Seq::<(Seq<char>, PathTree)>::empty());
    }
    let mut i: usize = 0;
    assert(ps.take(0) =~= Seq::<Seq<char>>::empty());
    while i < paths.len()
        invariant
            i <= paths@.len(),
            ps == views(paths@),
            node_view(root) == tree_of(ps.take(i as int)),
        decreases paths@.len() - i,
    {
        assert(ps.take(i + 1).drop_last() =~= ps.take(i as int));
        assert(ps.take(i + 1).last() == paths@[i as int]@);
        root = insert_path(root, &paths[i]);
        i = i + 1;
    }
    assert(ps.take(i as int) =~= ps);
    let mut out: Vec<char> = Vec::new();
    let mut prefix: Vec<char> = Vec::new();
    render_node(&root, &mut out, &mut prefix, true, 0, graph, opts);
    crate::text::chars_to_string(&out)
}

pub(crate) proof fn lemma_sorted_slot_facts(list: Seq<Seq<char>>, x: Seq<char>, k: int)
    requires
        0 <= k <= list.len(),
        forall|i: int| 0 <= i < k ==> lex_lt(#[trigger] list[i], x),
    ensures
        forall|i: int| 0 <= i < sorted_slot(list, x, k) ==> lex_lt(#[trigger] list[i], x),
        sorted_slot(list, x, k) < list.len() ==> !lex_lt(list[sorted_slot(list, x, k)], x),
        k <= sorted_slot(list, x, k) <= list.len(),
    decreases list.len() - k,
{
    if k < list.len() && lex_lt(list[k], x) {
        lemma_sorted_slot_facts(list, x, k + 1);
    }
}

pub(crate) proof fn lemma_insert_unique(list: Seq<Seq<char>>, x: Seq<char>)
    requires
        crate::text::strictly_sorted(list),
    ensures
        crate::text::strictly_sorted(insert_unique(list, x)),
        forall|y: Seq<char>| #[trigger]
            insert_unique(list, x).contains(y) <==> (list.contains(y) || y == x),
{
    lemma_sorted_slot_facts(list, x, 0);
    let k = sorted_slot(list, x, 0);
    if k < list.len() && list[k] == x {
    } else {
        let r = list.insert(k, x);
        if k < list.len() {
            crate::text::lemma_lex_lt_total(list[k], x);
        }
        assert forall|i: int, j: int| 0 <= i < j < r.len() implies crate::text::lex_lt(
            #[trigger] r[i],
            #[trigger] r[j],
        ) by {
            if j < k {
                assert(r[i] == list[i] && r[j] == list[j]);
            } else if j == k {
                assert(r[i] == list[i]);
            } else if i < k {
                assert(r[i] == list[i] && r[j] == list[j - 1]);
                crate::text::lemma_lex_lt_transitive(list[i], x, list[k]);
                if j - 1 > k {
                    crate::text::lemma_lex_lt_transitive(list[i], list[k], list[j - 1]);
                }
            } else if i == k {
                assert(r[j] == list[j - 1]);
                if j - 1 > k {
                    crate::text::lemma_lex_lt_transitive(x, list[k], list[j - 1]);
                }
            } else {
                assert(r[i] == list[i - 1] && r[j] == list[j - 1]);
            }
        }
        assert forall|y: Seq<char>| r.contains(y) <==> (list.contains(y) || y == x) by {
            if list.contains(y) {
                let m = choose|m: int| 0 <= m < list.len() && list[m] == y;
                if m < k {
                    assert(r[m] == y);
                } else {
                    assert(r[m + 1] == y);
                }
            }
            if y == x {
                assert(r[k] == x);
            }
            if r.contains(y) {
                let m = choose|m: int| 0 <= m < r.len() && r[m] == y;
                if m < k {
                    assert(list[m] == y);
                } else if m > k {
                    assert(list[m - 1] == y);
                }
            }
        }
    }
}

/// The files drawn are in name order, each once, and are exactly the
/// files of the chunks that pass the language filter.
pub proof fn lemma_selected_paths_sorted_and_complete(
    chunks: Seq<crate::chunking::ChunkView>,
    langs: Option<Seq<Seq<char>>>,
)
    ensures
        crate::text::strictly_sorted(selected_paths(chunks, langs)),
        forall|p: Seq<char>|
            selected_paths(chunks, langs).contains(p) <==> exists|i: int|
                0 <= i < chunks.len() && lang_selected(chunks[i].language, langs)
                    && #[trigger] chunks[i].file_path == p,
    decreases chunks.len(),
{
    if chunks.len() > 0 {
        let rest = chunks.drop_last();
        lemma_selected_paths_sorted_and_complete(rest, langs);
        let prev = selected_paths(rest, langs);
        let c = chunks.last();
        if lang_selected(c.language, langs) {
            lemma_insert_unique(prev, c.file_path);
        }
        let last = chunks.len() - 1;
        assert(chunks[last] == c);
        assert forall|p: Seq<char>|
            selected_paths(chunks, langs).contains(p) implies exists|i: int|
                0 <= i < chunks.len() && lang_selected(chunks[i].language, langs)
                    && #[trigger] chunks[i].file_path == p by {
            if prev.contains(p) {
                let i = choose|i: int|
                    0 <= i < rest.len() && lang_selected(rest[i].language, langs)
                        && #[trigger] rest[i].file_path == p;
                assert(chunks[i] == rest[i]);
            } else {
                assert(chunks[last].file_path == p);
            }
        }
        assert forall|p: Seq<char>|
            (exists|i: int|
                0 <= i < chunks.len() && lang_selected(chunks[i].language, langs)
                    && #[trigger] chunks[i].file_path == p) implies selected_paths(
            chunks,
            langs,
        ).contains(p) by {
            let i = choose|i: int|
                0 <= i < chunks.len() && lang_selected(chunks[i].language, langs)
                    && #[trigger] chunks[i].file_path == p;
            if i < rest.len() {
                assert(rest[i] == chunks[i]);
                assert(prev.contains(p));
                if lang_selected(c.language, langs) {
                    assert(insert_unique(prev, c.file_path).contains(p));
                }
            } else {
                assert(i == last);
                assert(lang_selected(c.language, langs));
                lemma_insert_unique(prev, c.file_path);
                assert(p == c.file_path);
                assert(insert_unique(prev, c.file_path).contains(p));
            }
        }
    }
}

} // verus!
