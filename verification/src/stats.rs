//! Counters of how much text searches returned compared with whole files.
use vstd::prelude::*;

use crate::text::{
    chars_eq, count_where, lex_lt, lex_lt_exec, str_to_chars, strictly_sorted, views,
};
use crate::tree::{lemma_sorted_slot_facts, sorted_slot};
use crate::chunking::{Chunk, ChunkView};
use vstd::utf8::encode_utf8;

verus! {

/// Calls and character counts of one period.
#[derive(Debug)]
pub struct BucketStats {
    pub calls: usize,
    pub snippet_chars: usize,
    pub file_chars: usize,
    pub saved_chars: usize,
}

impl Default for BucketStats {
    fn default() -> (b: BucketStats)
        ensures
            b.calls == 0,
            b.snippet_chars == 0,
            b.file_chars == 0,
            b.saved_chars == 0,
    {
        BucketStats { calls: 0, snippet_chars: 0, file_chars: 0, saved_chars: 0 }
    }
}

/// `a - b`, or 0 when `b` is larger.
pub open spec fn saturating_sub(a: nat, b: nat) -> nat {
    if a >= b {
        (a - b) as nat
    } else {
        0
    }
}

/// The counters of `b` can take one more call of `snippet_chars` out of
/// `file_chars` characters without passing `usize::MAX`.
pub open spec fn add_fits(b: &BucketStats, snippet_chars: usize, file_chars: usize) -> bool {
    &&& b.calls < usize::MAX
    &&& b.snippet_chars + snippet_chars <= usize::MAX
    &&& b.file_chars + file_chars <= usize::MAX
    &&& b.saved_chars + saturating_sub(file_chars as nat, snippet_chars as nat) <= usize::MAX
}

/// Whether `add` can count such a call.
pub fn can_add(b: &BucketStats, snippet_chars: usize, file_chars: usize) -> (r: bool)
    ensures
        r == add_fits(b, snippet_chars, file_chars),
{
    let saved = if file_chars >= snippet_chars {
        file_chars - snippet_chars
    } else {
        0
    };
    b.calls < usize::MAX && snippet_chars <= usize::MAX - b.snippet_chars && file_chars
        <= usize::MAX - b.file_chars && saved <= usize::MAX - b.saved_chars
}

impl BucketStats {
    /// Counts one call that returned `snippet_chars` characters out of files
    /// of `file_chars` characters; what the files had beyond the snippets is
    /// counted as saved.
    pub fn add(&mut self, snippet_chars: usize, file_chars: usize)
        requires
            add_fits(old(self), snippet_chars, file_chars),
        ensures
            final(self).calls == old(self).calls + 1,
            final(self).snippet_chars == old(self).snippet_chars + snippet_chars,
            final(self).file_chars == old(self).file_chars + file_chars,
            final(self).saved_chars == old(self).saved_chars + saturating_sub(
                file_chars as nat,
                snippet_chars as nat,
            ),
            old(self).saved_chars <= old(self).file_chars ==> final(self).saved_chars
                <= final(self).file_chars,
    {
        self.calls = self.calls + 1;
        self.snippet_chars = self.snippet_chars + snippet_chars;
        self.file_chars = self.file_chars + file_chars;
        let saved = if file_chars >= snippet_chars {
            file_chars - snippet_chars
        } else {
            0
        };
        self.saved_chars = self.saved_chars + saved;
    }
}

/// One line of the savings log: the call type, the UTC day it was made on
/// (a day number, one per calendar day), and its character counts.
pub struct UsageRecord {
    pub call: String,
    pub day: i64,
    pub snippet_chars: usize,
    pub file_chars: usize,
}

/// Calls, snippet characters, file characters and saved characters of the
/// records whose day `keep` accepts.
pub open spec fn tally(rs: Seq<UsageRecord>, keep: spec_fn(int) -> bool) -> (nat, nat, nat, nat)
    decreases rs.len(),
{
    if rs.len() == 0 {
        (0, 0, 0, 0)
    } else {
        let t = tally(rs.drop_last(), keep);
        let r = rs.last();
        if keep(r.day as int) {
            (
                t.0 + 1,
                t.1 + r.snippet_chars as nat,
                t.2 + r.file_chars as nat,
                t.3 + saturating_sub(r.file_chars as nat, r.snippet_chars as nat),
            )
        } else {
            t
        }
    }
}

/// A day of the period "today".
pub open spec fn on_day(today: int) -> spec_fn(int) -> bool {
    |d: int| d == today
}

/// A day of the period "last 7 days": later than a week before `today`.
pub open spec fn within_week(today: int) -> spec_fn(int) -> bool {
    |d: int| d > today - 7
}

/// Every day.
pub open spec fn any_day() -> spec_fn(int) -> bool {
    |d: int| true
}

/// The counters of `b` are the totals `t`.
pub open spec fn holds_totals(b: BucketStats, t: (nat, nat, nat, nat)) -> bool {
    &&& b.calls == t.0
    &&& b.snippet_chars == t.1
    &&& b.file_chars == t.2
    &&& b.saved_chars == t.3
}

/// The totals over all records fit in the counters.
pub open spec fn totals_fit(rs: Seq<UsageRecord>) -> bool {
    let t = tally(rs, any_day());
    &&& t.1 <= usize::MAX
    &&& t.2 <= usize::MAX
    &&& t.3 <= usize::MAX
}

/// A period's totals are at most those of all records.
proof fn lemma_tally_within_all(rs: Seq<UsageRecord>, keep: spec_fn(int) -> bool)
    ensures
        tally(rs, keep).0 <= tally(rs, any_day()).0,
        tally(rs, keep).1 <= tally(rs, any_day()).1,
        tally(rs, keep).2 <= tally(rs, any_day()).2,
        tally(rs, keep).3 <= tally(rs, any_day()).3,
        tally(rs, any_day()).0 == rs.len(),
    decreases rs.len(),
{
    if rs.len() > 0 {
        lemma_tally_within_all(rs.drop_last(), keep);
    }
}

/// The totals of a prefix are at most those of the whole.
proof fn lemma_tally_prefix(rs: Seq<UsageRecord>, keep: spec_fn(int) -> bool, j: int)
    requires
        0 <= j <= rs.len(),
    ensures
        tally(rs.take(j), keep).1 <= tally(rs, keep).1,
        tally(rs.take(j), keep).2 <= tally(rs, keep).2,
        tally(rs.take(j), keep).3 <= tally(rs, keep).3,
    decreases rs.len(),
{
    if j < rs.len() {
        assert(rs.drop_last().take(j) =~= rs.take(j));
        lemma_tally_prefix(rs.drop_last(), keep, j);
    } else {
        assert(rs.take(j) =~= rs);
    }
}

proof fn lemma_tally_monotone(
    rs: Seq<UsageRecord>,
    narrow: spec_fn(int) -> bool,
    wide: spec_fn(int) -> bool,
)
    requires
        forall|d: int| #[trigger] narrow(d) ==> wide(d),
    ensures
        tally(rs, narrow).0 <= tally(rs, wide).0,
        tally(rs, narrow).1 <= tally(rs, wide).1,
        tally(rs, narrow).2 <= tally(rs, wide).2,
        tally(rs, narrow).3 <= tally(rs, wide).3,
    decreases rs.len(),
{
    if rs.len() > 0 {
        lemma_tally_monotone(rs.drop_last(), narrow, wide);
    }
}

/// The periods nest: today's counters are at most those of the last seven
/// days, which are at most those of all time.
pub proof fn lemma_periods_nested(rs: Seq<UsageRecord>, today: int)
    ensures
        tally(rs, on_day(today)).0 <= tally(rs, within_week(today)).0 <= tally(rs, any_day()).0,
        tally(rs, on_day(today)).1 <= tally(rs, within_week(today)).1 <= tally(rs, any_day()).1,
        tally(rs, on_day(today)).2 <= tally(rs, within_week(today)).2 <= tally(rs, any_day()).2,
        tally(rs, on_day(today)).3 <= tally(rs, within_week(today)).3 <= tally(rs, any_day()).3,
        tally(rs, any_day()).0 == rs.len(),
{
    lemma_tally_monotone(rs, on_day(today), within_week(today));
    lemma_tally_within_all(rs, within_week(today));
}

/// In every period the saved characters are at most the file characters.
pub proof fn lemma_saved_within_files(rs: Seq<UsageRecord>, keep: spec_fn(int) -> bool)
    ensures
        tally(rs, keep).3 <= tally(rs, keep).2,
    decreases rs.len(),
{
    if rs.len() > 0 {
        lemma_saved_within_files(rs.drop_last(), keep);
    }
}

/// Adds record `r` to `b` if `keep` accepts its day.
fn count_in(b: &mut BucketStats, r: &UsageRecord, keep: bool)
    requires
        keep ==> add_fits(old(b), r.snippet_chars, r.file_chars),
    ensures
        keep ==> final(b).calls == old(b).calls + 1 && final(b).snippet_chars == old(
            b,
        ).snippet_chars + r.snippet_chars && final(b).file_chars == old(b).file_chars
            + r.file_chars && final(b).saved_chars == old(b).saved_chars + saturating_sub(
            r.file_chars as nat,
            r.snippet_chars as nat,
        ),
        !keep ==> *final(b) == *old(b),
{
    if keep {
        b.add(r.snippet_chars, r.file_chars);
    }
}

/// The period counters over `records` on day `today`: "Today", "Last 7
/// days" (later than a week before today) and "All time", in that order.
pub fn period_buckets(records: &Vec<UsageRecord>, today: i64) -> (b: Vec<(String, BucketStats)>)
    requires
        totals_fit(records@),
    ensures
        b@.len() == 3,
        b@[0].0@ == "Today"@,
        b@[1].0@ == "Last 7 days"@,
        b@[2].0@ == "All time"@,
        holds_totals(b@[0].1, tally(records@, on_day(today as int))),
        holds_totals(b@[1].1, tally(records@, within_week(today as int))),
        holds_totals(b@[2].1, tally(records@, any_day())),
{
    let ghost rs = records@;
    let mut today_b = BucketStats::default();
    let mut week_b = BucketStats::default();
    let mut all_b = BucketStats::default();
    let mut i: usize = 0;
    assert(rs.take(0) =~= Seq::<UsageRecord>::empty());
    while i < records.len()
        invariant
            i <= rs.len(),
            rs == records@,
            totals_fit(rs),
            holds_totals(today_b, tally(rs.take(i as int), on_day(today as int))),
            holds_totals(week_b, tally(rs.take(i as int), within_week(today as int))),
            holds_totals(all_b, tally(rs.take(i as int), any_day())),
        decreases rs.len() - i,
    {
        let ghost next = rs.take(i + 1);
        assert(next.drop_last() =~= rs.take(i as int));
        assert(next.last() == rs[i as int]);
        proof {
            lemma_tally_prefix(rs, any_day(), i + 1);
            lemma_tally_within_all(next, on_day(today as int));
            lemma_tally_within_all(next, within_week(today as int));
            lemma_tally_within_all(rs.take(i as int), any_day());
            assert(rs.take(i as int).len() == i);
        }
        let r = &records[i];
        count_in(&mut today_b, r, r.day == today);
        count_in(&mut week_b, r, (r.day as i128) > (today as i128) - 7);
        count_in(&mut all_b, r, true);
        i = i + 1;
    }
    assert(rs.take(i as int) =~= rs);
    let mut b: Vec<(String, BucketStats)> = Vec::new();
    b.push((String::from_str("Today"), today_b));
    b.push((String::from_str("Last 7 days"), week_b));
    b.push((String::from_str("All time"), all_b));
    b
}

/// Whether the totals over `records` fit in the counters.
pub fn fits_counters(records: &Vec<UsageRecord>) -> (b: bool)
    ensures
        b == totals_fit(records@),
{
    let ghost rs = records@;
    let mut sn: u128 = 0;
    let mut fl: u128 = 0;
    let mut sv: u128 = 0;
    let mut i: usize = 0;
    assert(rs.take(0) =~= Seq::<UsageRecord>::empty());
    while i < records.len()
        invariant
            i <= rs.len(),
            rs == records@,
            sn == tally(rs.take(i as int), any_day()).1,
            fl == tally(rs.take(i as int), any_day()).2,
            sv == tally(rs.take(i as int), any_day()).3,
            sn <= usize::MAX,
            fl <= usize::MAX,
            sv <= usize::MAX,
        decreases rs.len() - i,
    {
        assert(rs.take(i + 1).drop_last() =~= rs.take(i as int));
        assert(rs.take(i + 1).last() == rs[i as int]);
        let r = &records[i];
        let saved: usize = if r.file_chars >= r.snippet_chars {
            r.file_chars - r.snippet_chars
        } else {
            0
        };
        sn = sn + r.snippet_chars as u128;
        fl = fl + r.file_chars as u128;
        sv = sv + saved as u128;
        if sn > usize::MAX as u128 || fl > usize::MAX as u128 || sv > usize::MAX as u128 {
            proof {
                lemma_tally_prefix(rs, any_day(), i + 1);
            }
            return false;
        }
        i = i + 1;
    }
    assert(rs.take(i as int) =~= rs);
    true
}

/// Bytes of the UTF-8 text of every chunk's content.
pub open spec fn snippet_bytes(cs: Seq<ChunkView>) -> nat
    decreases cs.len(),
{
    if cs.len() == 0 {
        0
    } else {
        snippet_bytes(cs.drop_last()) + encode_utf8(cs.last().content).len()
    }
}

/// The file paths of the chunks, each once, in order of first appearance.
pub open spec fn distinct_paths(cs: Seq<ChunkView>) -> Seq<Seq<char>>
    decreases cs.len(),
{
    if cs.len() == 0 {
        Seq::empty()
    } else {
        let p = distinct_paths(cs.drop_last());
        if p.contains(cs.last().file_path) {
            p
        } else {
            p.push(cs.last().file_path)
        }
    }
}

/// Each file is counted once: the distinct paths hold no path twice, and
/// hold exactly the paths of the chunks.
pub proof fn lemma_distinct_paths(cs: Seq<ChunkView>)
    ensures
        forall|i: int, j: int|
            0 <= i < j < distinct_paths(cs).len() ==> #[trigger] distinct_paths(cs)[i]
                != #[trigger] distinct_paths(cs)[j],
        forall|p: Seq<char>| #[trigger]
            distinct_paths(cs).contains(p) <==> exists|k: int|
                0 <= k < cs.len() && #[trigger] cs[k].file_path == p,
    decreases cs.len(),
{
    if cs.len() > 0 {
        let prev = cs.drop_last();
        lemma_distinct_paths(prev);
        let q = distinct_paths(prev);
        let x = cs.last().file_path;
        assert forall|p: Seq<char>| #[trigger]
            distinct_paths(cs).contains(p) <==> exists|k: int|
                0 <= k < cs.len() && #[trigger] cs[k].file_path == p by {
            if distinct_paths(cs).contains(p) {
                if q.contains(p) {
                    let k = choose|k: int| 0 <= k < prev.len() && #[trigger] prev[k].file_path == p;
                    assert(cs[k].file_path == p);
                } else {
                    assert(p == x);
                    assert(cs[cs.len() - 1].file_path == p);
                }
            }
            if exists|k: int| 0 <= k < cs.len() && #[trigger] cs[k].file_path == p {
                let k = choose|k: int| 0 <= k < cs.len() && #[trigger] cs[k].file_path == p;
                if k < cs.len() - 1 {
                    assert(prev[k].file_path == p);
                    assert(q.contains(p));
                    if !q.contains(x) {
                        assert(distinct_paths(cs) == q.push(x));
                        let m = choose|m: int| 0 <= m < q.len() && q[m] == p;
                        assert(distinct_paths(cs)[m] == p);
                    }
                } else {
                    if !q.contains(x) {
                        assert(distinct_paths(cs)[q.len() as int] == x);
                    }
                }
            }
        }
    }
}

/// The size recorded for `path`: that of its first entry, or nothing.
pub open spec fn size_for(sizes: Seq<(Seq<char>, nat)>, path: Seq<char>) -> Option<nat>
    decreases sizes.len(),
{
    if sizes.len() == 0 {
        None
    } else if sizes[0].0 == path {
        Some(sizes[0].1)
    } else {
        size_for(sizes.drop_first(), path)
    }
}

/// The sizes of the files at `paths` that have one.
pub open spec fn file_bytes(paths: Seq<Seq<char>>, sizes: Seq<(Seq<char>, nat)>) -> nat
    decreases paths.len(),
{
    if paths.len() == 0 {
        0
    } else {
        file_bytes(paths.drop_last(), sizes) + match size_for(sizes, paths.last()) {
            Some(n) => n,
            None => 0,
        }
    }
}

/// The (path, size) entries of a list of file sizes.
pub open spec fn size_views(v: Seq<(String, usize)>) -> Seq<(Seq<char>, nat)> {
    v.map_values(|e: (String, usize)| (e.0@, e.1 as nat))
}

/// The size recorded for `path` in `sizes`.
fn lookup_size(sizes: &Vec<(String, usize)>, path: &[char]) -> (r: Option<usize>)
    ensures
        r matches Some(n) ==> size_for(size_views(sizes@), path@) == Some(n as nat),
        r is None ==> size_for(size_views(sizes@), path@) is None,
{
    let ghost sv = size_views(sizes@);
    let mut k: usize = 0;
    assert(sv.skip(0) =~= sv);
    while k < sizes.len()
        invariant
            k <= sizes@.len(),
            sv == size_views(sizes@),
            size_for(sv.skip(k as int), path@) == size_for(sv, path@),
        decreases sizes@.len() - k,
    {
        assert(sv.skip(k as int)[0] == (sizes@[k as int].0@, sizes@[k as int].1 as nat));
        assert(sv.skip(k as int).drop_first() =~= sv.skip(k + 1));
        if chars_eq(&str_to_chars(sizes[k].0.as_str()), path) {
            return Some(sizes[k].1);
        }
        k = k + 1;
    }
    None
}

proof fn lemma_snippet_prefix(cs: Seq<ChunkView>, j: int)
    requires
        0 <= j <= cs.len(),
    ensures
        snippet_bytes(cs.take(j)) <= snippet_bytes(cs),
    decreases cs.len(),
{
    if j < cs.len() {
        assert(cs.drop_last().take(j) =~= cs.take(j));
        lemma_snippet_prefix(cs.drop_last(), j);
    } else {
        assert(cs.take(j) =~= cs);
    }
}

proof fn lemma_file_bytes_prefix(ps: Seq<Seq<char>>, sizes: Seq<(Seq<char>, nat)>, j: int)
    requires
        0 <= j <= ps.len(),
    ensures
        file_bytes(ps.take(j), sizes) <= file_bytes(ps, sizes),
    decreases ps.len(),
{
    if j < ps.len() {
        assert(ps.drop_last().take(j) =~= ps.take(j));
        lemma_file_bytes_prefix(ps.drop_last(), sizes, j);
    } else {
        assert(ps.take(j) =~= ps);
    }
}

/// What one search returned, counted for the savings log: the bytes of its
/// chunks, and the sizes (from `file_sizes`) of the distinct files they come
/// from; `None` when either does not fit in `usize`.
pub fn search_usage(chunks: &Vec<Chunk>, file_sizes: &Vec<(String, usize)>) -> (r: Option<(usize, usize)>)
    ensures
        ({
            let cs = chunks@.map_values(|c: Chunk| c@);
            let fb = file_bytes(distinct_paths(cs), size_views(file_sizes@));
            match r {
                Some((s, f)) => s == snippet_bytes(cs) && f == fb,
                None => snippet_bytes(cs) > usize::MAX || fb > usize::MAX,
            }
        }),
{
    let ghost cs = chunks@.map_values(|c: Chunk| c@);
    let ghost sv = size_views(file_sizes@);
    let mut snippet: usize = 0;
    let mut seen: Vec<Vec<char>> = Vec::new();
    let mut i: usize = 0;
    assert(cs.take(0) =~= Seq::<ChunkView>::empty());
    while i < chunks.len()
        invariant
            i <= chunks@.len(),
            cs == chunks@.map_values(|c: Chunk| c@),
            cs.len() == chunks@.len(),
            snippet == snippet_bytes(cs.take(i as int)),
            views(seen@) == distinct_paths(cs.take(i as int)),
        decreases chunks@.len() - i,
    {
        assert(cs.take(i + 1).drop_last() =~= cs.take(i as int));
        assert(cs.take(i + 1).last() == chunks@[i as int]@);
        let c = &chunks[i];
        let n = c.content.as_str().as_bytes().len();
        assert(n as nat == encode_utf8(c.content@).len());
        if n > usize::MAX - snippet {
            proof {
                lemma_snippet_prefix(cs, i + 1);
            }
            return None;
        }
        snippet = snippet + n;
        let path = str_to_chars(c.file_path.as_str());
        let ghost before = views(seen@);
        let mut found = false;
        let mut k: usize = 0;
        while k < seen.len()
            invariant
                k <= seen@.len(),
                before == views(seen@),
                found == exists|m: int| 0 <= m < k && before[m] == path@,
            decreases seen@.len() - k,
        {
            assert(before[k as int] == seen@[k as int]@);
            if chars_eq(&seen[k], &path) {
                found = true;
            }
            k = k + 1;
        }
        assert(found == before.contains(path@));
        if !found {
            seen.push(path);
            assert(views(seen@) =~= before.push(c.file_path@));
        }
        i = i + 1;
    }
    assert(cs.take(i as int) =~= cs);
    let ghost ps = views(seen@);
    let mut files: usize = 0;
    let mut j: usize = 0;
    assert(ps.take(0) =~= Seq::<Seq<char>>::empty());
    while j < seen.len()
        invariant
            j <= seen@.len(),
            ps == views(seen@),
            ps == distinct_paths(cs),
            cs == chunks@.map_values(|c: Chunk| c@),
            sv == size_views(file_sizes@),
            snippet == snippet_bytes(cs),
            files == file_bytes(ps.take(j as int), sv),
        decreases seen@.len() - j,
    {
        assert(ps.take(j + 1).drop_last() =~= ps.take(j as int));
        assert(ps.take(j + 1).last() == seen@[j as int]@);
        match lookup_size(file_sizes, &seen[j]) {
            Some(sz) => {
                if sz > usize::MAX - files {
                    proof {
                        assert(file_bytes(ps.take(j + 1), sv) == files + sz);
                        lemma_file_bytes_prefix(ps, sv, j + 1);
                    }
                    return None;
                }
                files = files + sz;
            },
            None => {},
        }
        j = j + 1;
    }
    assert(ps.take(j as int) =~= ps);
    Some((snippet, files))
}

/// The names of a list of (name, count) entries.
pub open spec fn names_of(list: Seq<(Seq<char>, nat)>) -> Seq<Seq<char>> {
    list.map_values(|e: (Seq<char>, nat)| e.0)
}

/// `list` with one more call of `x`: its entry counted up, or a new entry
/// of one call put in name order.
pub open spec fn add_call(list: Seq<(Seq<char>, nat)>, x: Seq<char>) -> Seq<(Seq<char>, nat)> {
    let k = sorted_slot(names_of(list), x, 0);
    if k < list.len() && list[k].0 == x {
        list.update(k, (x, list[k].1 + 1))
    } else {
        list.insert(k, (x, 1nat))
    }
}

/// The call types of `calls` in name order, each with how often it occurs.
pub open spec fn call_counts(calls: Seq<Seq<char>>) -> Seq<(Seq<char>, nat)>
    decreases calls.len(),
{
    if calls.len() == 0 {
        Seq::empty()
    } else {
        add_call(call_counts(calls.drop_last()), calls.last())
    }
}

/// The call types of the records.
pub open spec fn call_names(rs: Seq<UsageRecord>) -> Seq<Seq<char>> {
    rs.map_values(|r: UsageRecord| r.call@)
}

/// Is the name `y`.
pub open spec fn is_name(y: Seq<char>) -> spec_fn(Seq<char>) -> bool {
    |c: Seq<char>| c == y
}

/// The (name, count) entries of a list of counted names.
pub open spec fn count_views(v: Seq<(String, usize)>) -> Seq<(Seq<char>, nat)> {
    v.map_values(|e: (String, usize)| (e.0@, e.1 as nat))
}

proof fn lemma_count_absent(calls: Seq<Seq<char>>, y: Seq<char>)
    requires
        !calls.contains(y),
    ensures
        count_where(calls, is_name(y)) == 0,
    decreases calls.len(),
{
    if calls.len() > 0 {
        assert(!calls.drop_last().contains(y)) by {
            if calls.drop_last().contains(y) {
                let m = choose|m: int| 0 <= m < calls.drop_last().len() && calls.drop_last()[m] == y;
                assert(calls[m] == y);
            }
        }
        assert(calls.last() == calls[calls.len() - 1]);
        lemma_count_absent(calls.drop_last(), y);
    }
}

/// The call counts name each call type once, in name order, with the number
/// of calls it made; and they name exactly the call types that occur.
pub proof fn lemma_call_counts_exact(calls: Seq<Seq<char>>)
    ensures
        strictly_sorted(names_of(call_counts(calls))),
        forall|j: int|
            0 <= j < call_counts(calls).len() ==> #[trigger] call_counts(calls)[j].1 == count_where(
                calls,
                is_name(call_counts(calls)[j].0),
            ),
        forall|y: Seq<char>| #[trigger] names_of(call_counts(calls)).contains(y) <==> calls.contains(y),
    decreases calls.len(),
{
    if calls.len() == 0 {
        assert(names_of(call_counts(calls)) =~= Seq::<Seq<char>>::empty());
    } else {
        let prev = calls.drop_last();
        let x = calls.last();
        lemma_call_counts_exact(prev);
        let list = call_counts(prev);
        let names = names_of(list);
        let r = call_counts(calls);
        assert(r == add_call(list, x));
        lemma_sorted_slot_facts(names, x, 0);
        crate::tree::lemma_insert_unique(names, x);
        let k = sorted_slot(names, x, 0);
        assert(calls =~= prev.push(x));
        assert forall|y: Seq<char>| count_where(calls, is_name(y)) == count_where(prev, is_name(y))
            + (if y == x { 1nat } else { 0nat }) by {
            assert(calls.drop_last() == prev);
        }
        if k < list.len() && list[k].0 == x {
            assert(names_of(r) =~= names);
            assert(names[k] == x);
            assert(names.contains(x));
            assert(prev.contains(x));
            assert forall|j: int| 0 <= j < r.len() implies #[trigger] r[j].1 == count_where(
                calls,
                is_name(r[j].0),
            ) by {
                if j != k {
                    assert(r[j] == list[j]);
                    assert(names[j] == list[j].0);
                    crate::text::lemma_lex_lt_irreflexive(x);
                }
            }
            assert forall|y: Seq<char>| #[trigger] names_of(r).contains(y) <==> calls.contains(y) by {
                if calls.contains(y) && y != x {
                    let m = choose|m: int| 0 <= m < calls.len() && calls[m] == y;
                    assert(prev[m] == y);
                }
            }
        } else {
            assert(names_of(r) =~= names.insert(k, x));
            assert(names_of(r) == crate::tree::insert_unique(names, x));
            assert(!names.contains(x)) by {
                if names.contains(x) {
                    let m = choose|m: int| 0 <= m < names.len() && names[m] == x;
                    if m < k {
                        assert(lex_lt(names[m], x));
                        crate::text::lemma_lex_lt_irreflexive(x);
                    } else if m > k {
                        assert(names[k] != x);
                        crate::text::lemma_lex_lt_total(names[k], x);
                        assert(lex_lt(names[k], names[m]));
                    }
                }
            }
            assert(!prev.contains(x));
            lemma_count_absent(prev, x);
            assert forall|j: int| 0 <= j < r.len() implies #[trigger] r[j].1 == count_where(
                calls,
                is_name(r[j].0),
            ) by {
                if j < k {
                    assert(r[j] == list[j]);
                    assert(names[j] == list[j].0);
                } else if j > k {
                    assert(r[j] == list[j - 1]);
                    assert(names[j - 1] == list[j - 1].0);
                }
            }
            assert forall|y: Seq<char>| #[trigger] names_of(r).contains(y) <==> calls.contains(y) by {
                if calls.contains(y) && y != x {
                    let m = choose|m: int| 0 <= m < calls.len() && calls[m] == y;
                    assert(prev[m] == y);
                }
            }
        }
    }
}

/// The call types of `records`, in name order, with their numbers of calls.
pub fn count_calls(records: &Vec<UsageRecord>) -> (v: Vec<(String, usize)>)
    ensures
        count_views(v@) == call_counts(call_names(records@)),
{
    let ghost cs = call_names(records@);
    let mut out: Vec<(String, usize)> = Vec::new();
    let mut i: usize = 0;
    assert(cs.take(0) =~= Seq::<Seq<char>>::empty());
    while i < records.len()
        invariant
            i <= records@.len(),
            cs == call_names(records@),
            cs.len() == records@.len(),
            count_views(out@) == call_counts(cs.take(i as int)),
            forall|j: int| 0 <= j < out@.len() ==> #[trigger] out@[j].1 <= i,
        decreases records@.len() - i,
    {
        let ghost list = count_views(out@);
        let ghost names = names_of(list);
        let x = str_to_chars(records[i].call.as_str());
        assert(cs.take(i + 1).drop_last() =~= cs.take(i as int));
        assert(cs.take(i + 1).last() == x@);
        let mut k: usize = 0;
        while k < out.len() && lex_lt_exec(&str_to_chars(out[k].0.as_str()), &x)
            invariant
                k <= out@.len(),
                list == count_views(out@),
                names == names_of(list),
                names.len() == out@.len(),
                sorted_slot(names, x@, k as int) == sorted_slot(names, x@, 0),
            decreases out@.len() - k,
        {
            assert(names[k as int] == out@[k as int].0@);
            k = k + 1;
        }
        proof {
            if k < out@.len() {
                assert(names[k as int] == out@[k as int].0@);
            }
        }
        if k < out.len() && chars_eq(&str_to_chars(out[k].0.as_str()), &x) {
            let c = out[k].1;
            let name = out[k].0.clone();
            out.set(k, (name, c + 1));
            assert(count_views(out@) =~= add_call(list, x@));
        } else {
            out.insert(k, (records[i].call.clone(), 1));
            assert(count_views(out@) =~= add_call(list, x@));
        }
        i = i + 1;
    }
    assert(cs.take(i as int) =~= cs);
    out
}

/// What the savings log holds, by period and by call type, on day `today`.
pub fn summarize_usage(records: &Vec<UsageRecord>, today: i64) -> (s: SavingsSummary)
    requires
        totals_fit(records@),
    ensures
        s.buckets@.len() == 3,
        s.buckets@[0].0@ == "Today"@,
        s.buckets@[1].0@ == "Last 7 days"@,
        s.buckets@[2].0@ == "All time"@,
        holds_totals(s.buckets@[0].1, tally(records@, on_day(today as int))),
        holds_totals(s.buckets@[1].1, tally(records@, within_week(today as int))),
        holds_totals(s.buckets@[2].1, tally(records@, any_day())),
        count_views(s.call_type_counts@) == call_counts(call_names(records@)),
{
    SavingsSummary {
        buckets: period_buckets(records, today),
        call_type_counts: count_calls(records),
    }
}

/// The periods (today, the last seven days, all time) with their counters,
/// and how many calls each call type made, by call type in name order.
pub struct SavingsSummary {
    pub buckets: Vec<(String, BucketStats)>,
    pub call_type_counts: Vec<(String, usize)>,
}

} // verus!
