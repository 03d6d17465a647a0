//! Lookup tables of an index: which chunks belong to each file and each
//! language, and which chunks a language or path filter selects.
use vstd::prelude::*;

use crate::chunking::{chunk_views, Chunk, ChunkView};
use crate::text::str_to_chars;
use crate::tokens::string_views;

verus! {

/// Keys, each with the positions filed under it, in order of first use.
pub type Groups = Vec<(String, Vec<usize>)>;

/// A table of groups as text and positions.
pub open spec fn groups_view(g: Seq<(String, Vec<usize>)>) -> Seq<(Seq<char>, Seq<usize>)> {
    g.map_values(|e: (String, Vec<usize>)| (e.0@, e.1@))
}

/// The first position of `key` among the keys of `groups`.
pub open spec fn key_index(groups: Seq<(Seq<char>, Seq<usize>)>, key: Seq<char>, k: int) -> Option<
    int,
>
    decreases groups.len() - k,
{
    if k < 0 || k >= groups.len() {
        None
    } else if groups[k].0 == key {
        Some(k)
    } else {
        key_index(groups, key, k + 1)
    }
}

/// `groups` with position `i` filed under `key` (a new group at the end
/// when the key is new).
pub open spec fn file_under(
    groups: Seq<(Seq<char>, Seq<usize>)>,
    key: Seq<char>,
    i: usize,
) -> Seq<(Seq<char>, Seq<usize>)> {
    match key_index(groups, key, 0) {
        Some(j) => groups.update(j, (key, groups[j].1.push(i))),
        None => groups.push((key, seq![i])),
    }
}

/// The chunk positions below `n` grouped by file path.
pub open spec fn file_groups(chunks: Seq<ChunkView>, n: int) -> Seq<(Seq<char>, Seq<usize>)>
    decreases n,
{
    if n <= 0 {
        Seq::empty()
    } else {
        file_under(file_groups(chunks, n - 1), chunks[n - 1].file_path, (n - 1) as usize)
    }
}

/// The chunk positions below `n` grouped by language (chunks without one
/// are left out).
pub open spec fn language_groups(chunks: Seq<ChunkView>, n: int) -> Seq<(Seq<char>, Seq<usize>)>
    decreases n,
{
    if n <= 0 {
        Seq::empty()
    } else {
        let p = language_groups(chunks, n - 1);
        match chunks[n - 1].language {
            Some(l) => file_under(p, l, (n - 1) as usize),
            None => p,
        }
    }
}

proof fn lemma_key_index_bounds(groups: Seq<(Seq<char>, Seq<usize>)>, key: Seq<char>, k: int)
    requires
        k >= 0,
    ensures
        key_index(groups, key, k) matches Some(j) ==> k <= j < groups.len() && groups[j].0 == key,
        key_index(groups, key, k) is None ==> forall|j: int|
            k <= j < groups.len() ==> groups[j].0 != key,
    decreases groups.len() - k,
{
    if k >= 0 && k < groups.len() && groups[k].0 != key {
        lemma_key_index_bounds(groups, key, k + 1);
    }
}

/// Where `key` is filed in `groups`.
fn find_key(groups: &Groups, key: &[char]) -> (r: Option<usize>)
    ensures
        r matches Some(j) ==> key_index(groups_view(groups@), key@, 0) == Some(j as int),
        r is None ==> key_index(groups_view(groups@), key@, 0) is None,
{
    let ghost gv = groups_view(groups@);
    let mut k: usize = 0;
    while k < groups.len()
        invariant
            k <= groups@.len(),
            gv == groups_view(groups@),
            key_index(gv, key@, k as int) == key_index(gv, key@, 0),
        decreases groups@.len() - k,
    {
        let name = str_to_chars(groups[k].0.as_str());
        assert(gv[k as int].0 == name@);
        if crate::text::chars_eq(&name, key) {
            return Some(k);
        }
        k = k + 1;
    }
    None
}

/// Files position `i` under `key`.
fn file_under_exec(groups: &mut Groups, key: &str, i: usize)
    ensures
        groups_view(final(groups)@) == file_under(groups_view(old(groups)@), key@, i),
{
    let ghost gv = groups_view(groups@);
    let kc = str_to_chars(key);
    match find_key(groups, &kc) {
        Some(j) => {
            proof {
                lemma_key_index_bounds(gv, key@, 0);
            }
            let mut entry = groups.remove(j);
            entry.1.push(i);
            groups.insert(j, entry);
            assert(groups_view(groups@) =~= gv.update(j as int, (key@, gv[j as int].1.push(i))));
        },
        None => {
            let mut v: Vec<usize> = Vec::new();
            v.push(i);
            groups.push((key.to_owned(), v));
            assert(groups_view(groups@) =~= gv.push((key@, seq![i])));
        },
    }
}

/// The chunk positions of each file and of each language, in order of
/// first appearance.
pub fn build_mappings(chunks: &[Chunk]) -> (r: (Groups, Groups))
    ensures
        groups_view(r.0@) == file_groups(chunk_views(chunks@), chunks@.len() as int),
        groups_view(r.1@) == language_groups(chunk_views(chunks@), chunks@.len() as int),
{
    let ghost cv = chunk_views(chunks@);
    let mut files: Groups = Vec::new();
    let mut langs: Groups = Vec::new();
    let mut i: usize = 0;
    assert(groups_view(files@) =~= Seq::<(Seq<char>, Seq<usize>)>::empty());
    assert(groups_view(langs@) =~= Seq::<(Seq<char>, Seq<usize>)>::empty());
    while i < chunks.len()
        invariant
            i <= chunks@.len(),
            cv == chunk_views(chunks@),
            groups_view(files@) == file_groups(cv, i as int),
            groups_view(langs@) == language_groups(cv, i as int),
        decreases chunks@.len() - i,
    {
        let c = &chunks[i];
        assert(cv[i as int] == c@);
        file_under_exec(&mut files, c.file_path.as_str(), i);
        match &c.language {
            Some(l) => file_under_exec(&mut langs, l.as_str(), i),
            None => {},
        }
        i = i + 1;
    }
    (files, langs)
}

/// The positions filed under `key`, if it has a group.
pub open spec fn group_of(groups: Seq<(Seq<char>, Seq<usize>)>, key: Seq<char>) -> Seq<usize> {
    match key_index(groups, key, 0) {
        Some(j) => groups[j].1,
        None => Seq::empty(),
    }
}

/// The positions filed under the keys `keys`, one group after the other.
pub open spec fn gathered(groups: Seq<(Seq<char>, Seq<usize>)>, keys: Seq<Seq<char>>) -> Seq<usize>
    decreases keys.len(),
{
    if keys.len() == 0 {
        Seq::empty()
    } else {
        gathered(groups, keys.drop_last()) + group_of(groups, keys.last())
    }
}

/// The first position of `list` from `k` on that is not below `x`.
pub open spec fn usize_slot(list: Seq<usize>, x: usize, k: int) -> int
    decreases list.len() - k,
{
    if k >= list.len() || list[k] >= x {
        k
    } else {
        usize_slot(list, x, k + 1)
    }
}

/// `list` with `x` put in its sorted place, unless it is there already.
pub open spec fn insert_usize(list: Seq<usize>, x: usize) -> Seq<usize> {
    let k = usize_slot(list, x, 0);
    if k < list.len() && list[k] == x {
        list
    } else {
        list.insert(k, x)
    }
}

/// The positions of `xs`, sorted and each once.
pub open spec fn sorted_unique(xs: Seq<usize>) -> Seq<usize>
    decreases xs.len(),
{
    if xs.len() == 0 {
        Seq::empty()
    } else {
        insert_usize(sorted_unique(xs.drop_last()), xs.last())
    }
}

/// The chunks a filter selects: those of the listed languages and of the
/// listed files, sorted and each once; `None` when that is none at all.
pub open spec fn selector_spec(
    files: Seq<(Seq<char>, Seq<usize>)>,
    langs: Seq<(Seq<char>, Seq<usize>)>,
    filter_languages: Option<Seq<Seq<char>>>,
    filter_paths: Option<Seq<Seq<char>>>,
) -> Option<Seq<usize>> {
    let by_lang = match filter_languages {
        Some(ls) => gathered(langs, ls),
        None => Seq::empty(),
    };
    let by_path = match filter_paths {
        Some(ps) => gathered(files, ps),
        None => Seq::empty(),
    };
    let all = by_lang + by_path;
    if all.len() == 0 {
        None
    } else {
        Some(sorted_unique(all))
    }
}

fn insert_usize_exec(list: &mut Vec<usize>, x: usize)
    ensures
        final(list)@ == insert_usize(old(list)@, x),
{
    let ghost l = list@;
    let mut k: usize = 0;
    while k < list.len() && list[k] < x
        invariant
            k <= list@.len(),
            l == list@,
            usize_slot(l, x, k as int) == usize_slot(l, x, 0),
        decreases list@.len() - k,
    {
        k = k + 1;
    }
    if k < list.len() && list[k] == x {
        return;
    }
    list.insert(k, x);
}

/// Appends the positions filed under each of `keys`.
fn gather(groups: &Groups, keys: &[String], out: &mut Vec<usize>)
    ensures
        final(out)@ == old(out)@ + gathered(groups_view(groups@), string_views(keys@)),
{
    let ghost gv = groups_view(groups@);
    let ghost kv = string_views(keys@);
    let ghost start = out@;
    let mut i: usize = 0;
    assert(kv.take(0) =~= Seq::<Seq<char>>::empty());
    assert(out@ =~= start + gathered(gv, kv.take(0)));
    while i < keys.len()
        invariant
            i <= keys@.len(),
            gv == groups_view(groups@),
            kv == string_views(keys@),
            out@ == start + gathered(gv, kv.take(i as int)),
        decreases keys@.len() - i,
    {
        assert(kv.take(i + 1).drop_last() =~= kv.take(i as int));
        assert(kv.take(i + 1).last() == keys@[i as int]@);
        let kc = str_to_chars(keys[i].as_str());
        let ghost before = out@;
        match find_key(groups, &kc) {
            Some(j) => {
                proof {
                    lemma_key_index_bounds(gv, kc@, 0);
                }
                let ids = &groups[j].1;
                assert(gv[j as int].1 == ids@);
                let mut m: usize = 0;
                while m < ids.len()
                    invariant
                        m <= ids@.len(),
                        out@ == before + ids@.take(m as int),
                    decreases ids@.len() - m,
                {
                    out.push(ids[m]);
                    m = m + 1;
                    assert(out@ =~= before + ids@.take(m as int));
                }
                assert(ids@.take(m as int) =~= ids@);
            },
            None => {
                assert(out@ =~= before + Seq::<usize>::empty());
            },
        }
        i = i + 1;
        assert(out@ =~= start + gathered(gv, kv.take(i as int)));
    }
    assert(kv.take(i as int) =~= kv);
}

/// The chunk positions that a language filter and a path filter select,
/// sorted and each once; `None` when they select nothing.
pub fn selector_for(
    file_mapping: &Groups,
    language_mapping: &Groups,
    filter_languages: Option<&[String]>,
    filter_paths: Option<&[String]>,
) -> (r: Option<Vec<usize>>)
    ensures
        r matches Some(v) ==> selector_spec(
            groups_view(file_mapping@),
            groups_view(language_mapping@),
            crate::tree::langs_view(filter_languages),
            crate::tree::langs_view(filter_paths),
        ) == Some(v@),
        r is None ==> selector_spec(
            groups_view(file_mapping@),
            groups_view(language_mapping@),
            crate::tree::langs_view(filter_languages),
            crate::tree::langs_view(filter_paths),
        ) is None,
{
    let mut indices: Vec<usize> = Vec::new();
    match filter_languages {
        Some(ls) => gather(language_mapping, ls, &mut indices),
        None => {},
    }
    let ghost by_lang = indices@;
    match filter_paths {
        Some(ps) => gather(file_mapping, ps, &mut indices),
        None => {},
    }
    let ghost all = indices@;
    assert(all =~= by_lang + (match crate::tree::langs_view(filter_paths) {
        Some(ps) => gathered(groups_view(file_mapping@), ps),
        None => Seq::<usize>::empty(),
    }));
    if indices.len() == 0 {
        return None;
    }
    let mut sorted: Vec<usize> = Vec::new();
    let mut i: usize = 0;
    assert(all.take(0) =~= Seq::<usize>::empty());
    while i < indices.len()
        invariant
            i <= indices@.len(),
            all == indices@,
            sorted@ == sorted_unique(all.take(i as int)),
        decreases indices@.len() - i,
    {
        assert(all.take(i + 1).drop_last() =~= all.take(i as int));
        insert_usize_exec(&mut sorted, indices[i]);
        i = i + 1;
    }
    assert(all.take(i as int) =~= all);
    Some(sorted)
}

} // verus!
