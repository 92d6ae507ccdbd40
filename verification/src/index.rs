use dashmap::DashMap;
use vstd::prelude::*;

use crate::paths::{join_path, path_join};
use crate::text::{
    chars_less, chars_lt, chars_of, decimal, decimal_string, lemma_chars_less_asymmetric,
    lemma_chars_less_total, lemma_chars_less_transitive, push_all,
    string_of,
};

verus! {

/// The path of a source file, as the index keys it.
pub type SourcePath = String;

/// A module: its dotted name and the line (counted from 1) of its `defmodule`.
pub type Module = (String, usize);

/// The modules of one source file.
pub type Entry = (SourcePath, Vec<Module>);

/// A module as mathematical values.
pub type ModuleView = (Seq<char>, usize);

/// An entry as mathematical values.
pub type EntryView = (Seq<char>, Seq<ModuleView>);

/// One line of the module listing: module name, source path, line.
pub type RowView = (Seq<char>, Seq<char>, usize);

pub open spec fn modules_view(v: Seq<Module>) -> Seq<ModuleView> {
    v.map_values(|m: Module| (m.0@, m.1))
}

pub open spec fn entry_view(e: Entry) -> EntryView {
    (e.0@, modules_view(e.1@))
}

pub open spec fn entries_view(v: Seq<Entry>) -> Seq<EntryView> {
    v.map_values(|e: Entry| entry_view(e))
}

/// No two entries share a source path.
pub open spec fn distinct_keys(es: Seq<EntryView>) -> bool {
    forall|i: int, j: int| 0 <= i < es.len() && 0 <= j < es.len() && i != j ==> es[i].0 != es[j].0
}

/// The map that the entries give when each is recorded in turn (a later entry for the same
/// path replaces an earlier one).
pub open spec fn entries_map(es: Seq<EntryView>) -> Map<Seq<char>, Seq<ModuleView>>
    decreases es.len(),
{
    if es.len() == 0 {
        Map::empty()
    } else {
        entries_map(es.drop_last()).insert(es.last().0, es.last().1)
    }
}

/// The position of the last entry for path `k`, if any.
pub open spec fn find_key(es: Seq<EntryView>, k: Seq<char>) -> Option<int>
    decreases es.len(),
{
    if es.len() == 0 {
        None
    } else if es.last().0 == k {
        Some(es.len() - 1)
    } else {
        find_key(es.drop_last(), k)
    }
}

/// `es` with `e` recorded: it replaces the entry for its path, or is appended when there is
/// none.
pub open spec fn upsert(es: Seq<EntryView>, e: EntryView) -> Seq<EntryView> {
    match find_key(es, e.0) {
        Some(i) => es.update(i, e),
        None => es.push(e),
    }
}

/// Recording `es` one after another into an empty listing.
pub open spec fn upsert_all(start: Seq<EntryView>, es: Seq<EntryView>) -> Seq<EntryView>
    decreases es.len(),
{
    if es.len() == 0 {
        start
    } else {
        upsert(upsert_all(start, es.drop_last()), es.last())
    }
}

pub proof fn lemma_find_key(es: Seq<EntryView>, k: Seq<char>)
    ensures
        match find_key(es, k) {
            Some(i) => 0 <= i < es.len() && es[i].0 == k,
            None => forall|i: int| 0 <= i < es.len() ==> es[i].0 != k,
        },
    decreases es.len(),
{
    if es.len() > 0 && es.last().0 != k {
        lemma_find_key(es.drop_last(), k);
        if find_key(es, k) is None {
            assert forall|i: int| 0 <= i < es.len() implies es[i].0 != k by {
                if i < es.len() - 1 {
                    assert(es[i] == es.drop_last()[i]);
                }
            }
        }
    }
}

pub proof fn lemma_entries_map_dom(es: Seq<EntryView>, k: Seq<char>)
    ensures
        entries_map(es).dom().contains(k) <==> exists|i: int| 0 <= i < es.len() && es[i].0 == k,
    decreases es.len(),
{
    if es.len() > 0 {
        lemma_entries_map_dom(es.drop_last(), k);
        if entries_map(es).dom().contains(k) && es.last().0 != k {
            let i = choose|i: int| 0 <= i < es.len() - 1 && es.drop_last()[i].0 == k;
            assert(es[i] == es.drop_last()[i]);
        }
        if exists|i: int| 0 <= i < es.len() && es[i].0 == k {
            let i = choose|i: int| 0 <= i < es.len() && es[i].0 == k;
            if i < es.len() - 1 {
                assert(es.drop_last()[i] == es[i]);
            }
        }
    }
}

/// Recording one entry keeps the paths distinct and updates the map at that path.
pub proof fn lemma_upsert(es: Seq<EntryView>, e: EntryView)
    requires
        distinct_keys(es),
    ensures
        distinct_keys(upsert(es, e)),
        entries_map(upsert(es, e)) == entries_map(es).insert(e.0, e.1),
    decreases es.len(),
{
    lemma_find_key(es, e.0);
    match find_key(es, e.0) {
        Some(i) => {
            let u = es.update(i, e);
            assert(distinct_keys(u)) by {
                assert forall|a: int, b: int| 0 <= a < u.len() && 0 <= b < u.len() && a != b implies u[a].0 != u[b].0 by {
                    if a == i {
                        assert(es[b].0 != es[i].0);
                    } else if b == i {
                        assert(es[a].0 != es[i].0);
                    }
                }
            }
            if i == es.len() - 1 {
                assert(u.drop_last() =~= es.drop_last());
                assert(entries_map(u) =~= entries_map(es).insert(e.0, e.1));
            } else {
                let front = es.drop_last();
                assert(distinct_keys(front)) by {
                    assert forall|a: int, b: int| 0 <= a < front.len() && 0 <= b < front.len() && a != b implies front[a].0 != front[b].0 by {
                        assert(front[a] == es[a] && front[b] == es[b]);
                    }
                }
                assert(find_key(front, e.0) == Some(i)) by {
                    lemma_find_key(front, e.0);
                    assert(front[i].0 == e.0);
                    match find_key(front, e.0) {
                        Some(j) => {
                            assert(front[j] == es[j]);
                        },
                        None => {},
                    }
                }
                lemma_upsert(front, e);
                assert(u.drop_last() =~= front.update(i, e));
                assert(es.last().0 != e.0) by {
                    assert(es[es.len() - 1].0 != es[i].0);
                }
                assert(entries_map(u) =~= entries_map(es).insert(e.0, e.1));
            }
        },
        None => {
            let u = es.push(e);
            assert(u.drop_last() =~= es);
            assert(distinct_keys(u)) by {
                assert forall|a: int, b: int| 0 <= a < u.len() && 0 <= b < u.len() && a != b implies u[a].0 != u[b].0 by {
                    if a < es.len() && b < es.len() {
                        assert(u[a] == es[a] && u[b] == es[b]);
                    } else if a < es.len() {
                        assert(u[a] == es[a]);
                    } else {
                        assert(u[b] == es[b]);
                    }
                }
            }
        },
    }
}

/// Recording entries one after another keeps the paths distinct, and the map gains each
/// entry in turn.
pub proof fn lemma_upsert_all(start: Seq<EntryView>, es: Seq<EntryView>)
    requires
        distinct_keys(start),
    ensures
        distinct_keys(upsert_all(start, es)),
        entries_map(upsert_all(start, es)) == entries_map(start).union_prefer_right(entries_map(es)),
    decreases es.len(),
{
    if es.len() == 0 {
        assert(entries_map(start).union_prefer_right(Map::empty()) =~= entries_map(start));
    } else {
        lemma_upsert_all(start, es.drop_last());
        lemma_upsert(upsert_all(start, es.drop_last()), es.last());
        assert(entries_map(start).union_prefer_right(entries_map(es.drop_last())).insert(
            es.last().0,
            es.last().1,
        ) =~= entries_map(start).union_prefer_right(entries_map(es)));
    }
}

// ---------------------------------------------------------------------------
// Rows of the module listing
// ---------------------------------------------------------------------------

/// The rows of one entry: one per module, in order.
pub open spec fn entry_rows(path: Seq<char>, mods: Seq<ModuleView>) -> Seq<RowView>
    decreases mods.len(),
{
    if mods.len() == 0 {
        Seq::empty()
    } else {
        entry_rows(path, mods.drop_last()).push((mods.last().0, path, mods.last().1))
    }
}

/// The rows of all entries, entry after entry.
pub open spec fn index_rows(es: Seq<EntryView>) -> Seq<RowView>
    decreases es.len(),
{
    if es.len() == 0 {
        Seq::empty()
    } else {
        index_rows(es.drop_last()) + entry_rows(es.last().0, es.last().1)
    }
}

/// `sorted` with `r` inserted after every row whose name is not greater than its name.
pub open spec fn insert_by_name(sorted: Seq<RowView>, r: RowView) -> Seq<RowView>
    decreases sorted.len(),
{
    if sorted.len() == 0 || !chars_less(r.0, sorted.last().0) {
        sorted.push(r)
    } else {
        insert_by_name(sorted.drop_last(), r).push(sorted.last())
    }
}

/// The rows sorted by module name; rows with equal names keep their order.
pub open spec fn sort_by_name(rows: Seq<RowView>) -> Seq<RowView>
    decreases rows.len(),
{
    if rows.len() == 0 {
        Seq::empty()
    } else {
        insert_by_name(sort_by_name(rows.drop_last()), rows.last())
    }
}

/// One line of the listing: name, tab, path, tab, line number, newline.
pub open spec fn row_line(r: RowView) -> Seq<char> {
    r.0 + seq!['\t'] + r.1 + seq!['\t'] + decimal(r.2 as nat) + seq!['\n']
}

/// The lines of all rows, in order.
pub open spec fn render_rows(rows: Seq<RowView>) -> Seq<char>
    decreases rows.len(),
{
    if rows.len() == 0 {
        Seq::empty()
    } else {
        render_rows(rows.drop_last()) + row_line(rows.last())
    }
}

/// The text of the module listing for the given entries.
pub open spec fn index_text(es: Seq<EntryView>) -> Seq<char> {
    render_rows(sort_by_name(index_rows(es)))
}

// ---------------------------------------------------------------------------
// The listing of entries
// ---------------------------------------------------------------------------

/// The position of the entry for `key`, if any.
fn find_entry(entries: &Vec<Entry>, key: &String) -> (pos: Option<usize>)
    ensures
        match find_key(entries_view(entries@), key@) {
            Some(i) => pos matches Some(p) && p == i,
            None => pos is None,
        },
{
    let ghost es = entries_view(entries@);
    let mut j: usize = entries.len();
    assert(es.take(j as int) =~= es);
    while j > 0
        invariant
            j <= entries@.len(),
            es == entries_view(entries@),
            find_key(es, key@) == find_key(es.take(j as int), key@),
        decreases j,
    {
        let ghost front = es.take(j as int);
        assert(front.last() == entry_view(entries@[j - 1]));
        if entries[j - 1].0 == *key {
            return Some(j - 1);
        }
        assert(front.drop_last() =~= es.take(j - 1));
        j = j - 1;
    }
    None
}

/// Records `modules` for `key`, replacing what was recorded for it.
fn upsert_entry(entries: &mut Vec<Entry>, key: String, modules: Vec<Module>)
    ensures
        entries_view(final(entries)@) == upsert(entries_view(old(entries)@), (key@, modules_view(modules@))),
{
    let ghost e = (key@, modules_view(modules@));
    match find_entry(entries, &key) {
        Some(i) => {
            proof {
                lemma_find_key(entries_view(entries@), key@);
            }
            let ghost es = entries_view(entries@);
            assert(find_key(es, e.0) == Some(i as int));
            entries.set(i, (key, modules));
            assert(entries_view(entries@) =~= es.update(i as int, e));
            assert(upsert(es, e) == es.update(i as int, e));
        },
        None => {
            let ghost es = entries_view(entries@);
            entries.push((key, modules));
            assert(entries_view(entries@) =~= es.push(e));
            assert(upsert(es, e) == es.push(e));
        },
    }
}

/// Records each of `updates` in turn.
fn upsert_entries(entries: &mut Vec<Entry>, updates: Vec<Entry>)
    ensures
        entries_view(final(entries)@) == upsert_all(entries_view(old(entries)@), entries_view(updates@)),
{
    let ghost start = entries_view(entries@);
    let ghost ups = entries_view(updates@);
    let ghost n = updates@.len();
    for e in it: updates
        invariant
            it.seq() == updates@,
            ups == entries_view(updates@),
            n == updates@.len(),
            entries_view(entries@) == upsert_all(start, ups.take(it.index() as int)),
    {
        let ghost i = it.index();
        assert(entry_view(e) == ups[i as int]);
        upsert_entry(entries, e.0, e.1);
        assert(ups.take(i + 1).drop_last() =~= ups.take(i as int));
    }
    assert(ups.take(n as int) =~= ups);
}

/// A row of the listing: module name (as characters), source path, line.
type Row = (Vec<char>, String, usize);

spec fn row_view(r: Row) -> RowView {
    (r.0@, r.1@, r.2)
}

spec fn rows_view(v: Seq<Row>) -> Seq<RowView> {
    v.map_values(|r: Row| row_view(r))
}

/// The rows of all entries, entry after entry.
fn collect_rows(entries: &Vec<Entry>) -> (rows: Vec<Row>)
    ensures
        rows_view(rows@) == index_rows(entries_view(entries@)),
{
    let ghost es = entries_view(entries@);
    let mut rows: Vec<Row> = Vec::new();
    let mut i: usize = 0;
    while i < entries.len()
        invariant
            i <= entries@.len(),
            es == entries_view(entries@),
            rows_view(rows@) == index_rows(es.take(i as int)),
        decreases entries@.len() - i,
    {
        let path = &entries[i].0;
        let mods = &entries[i].1;
        let ghost e = es[i as int];
        assert(e == entry_view(entries@[i as int]));
        let ghost before = rows_view(rows@);
        let mut m: usize = 0;
        while m < mods.len()
            invariant
                m <= mods@.len(),
                e.0 == path@,
                e.1 == modules_view(mods@),
                rows_view(rows@) == before + entry_rows(e.0, e.1.take(m as int)),
            decreases mods@.len() - m,
        {
            let name = chars_of(mods[m].0.as_str());
            let row: Row = (name, path.clone(), mods[m].1);
            let ghost rv = row_view(row);
            let ghost prev = rows@;
            assert(rv == (mods@[m as int].0@, path@, mods@[m as int].1));
            rows.push(row);
            assert(rows_view(rows@) =~= rows_view(prev).push(rv));
            assert(e.1.take(m + 1).drop_last() =~= e.1.take(m as int));
            assert(e.1.take(m + 1).last() == (mods@[m as int].0@, mods@[m as int].1));
            assert(entry_rows(e.0, e.1.take(m + 1)) == entry_rows(e.0, e.1.take(m as int)).push(rv));
            assert(rows_view(rows@) =~= before + entry_rows(e.0, e.1.take(m + 1)));
            m = m + 1;
        }
        assert(e.1.take(mods@.len() as int) =~= e.1);
        assert(es.take(i + 1).drop_last() =~= es.take(i as int));
        assert(es.take(i + 1).last() == e);
        i = i + 1;
    }
    assert(es.take(entries@.len() as int) =~= es);
    rows
}

/// Inserting `x` at position `j` is what `insert_by_name` does when every row from `j` on is
/// named after `x` and the row before `j` is not.
proof fn lemma_insert_at(s: Seq<RowView>, x: RowView, j: int)
    requires
        0 <= j <= s.len(),
        forall|k: int| j <= k < s.len() ==> chars_less(x.0, #[trigger] s[k].0),
        j == 0 || !chars_less(x.0, s[j - 1].0),
    ensures
        insert_by_name(s, x) == s.take(j).push(x) + s.skip(j),
    decreases s.len(),
{
    if j == s.len() {
        assert(s.take(j) =~= s);
        assert(s.skip(j) =~= Seq::<RowView>::empty());
        assert(s.take(j).push(x) + s.skip(j) =~= s.push(x));
    } else {
        assert(chars_less(x.0, s[s.len() - 1].0));
        let d = s.drop_last();
        assert forall|k: int| j <= k < d.len() implies chars_less(x.0, #[trigger] d[k].0) by {
            assert(d[k] == s[k]);
        }
        if j > 0 {
            assert(d[j - 1] == s[j - 1]);
        }
        lemma_insert_at(d, x, j);
        assert(d.take(j) =~= s.take(j));
        assert((d.take(j).push(x) + d.skip(j)).push(s.last()) =~= s.take(j).push(x) + s.skip(j));
    }
}

/// Inserts `r` into the sorted rows after every row whose name is not greater.
fn insert_row(sorted: &mut Vec<Row>, r: Row)
    ensures
        rows_view(final(sorted)@) == insert_by_name(rows_view(old(sorted)@), row_view(r)),
{
    let ghost s = rows_view(sorted@);
    let mut j: usize = sorted.len();
    while j > 0 && chars_lt(r.0.as_slice(), sorted[j - 1].0.as_slice())
        invariant
            j <= sorted@.len(),
            s == rows_view(sorted@),
            forall|k: int| j <= k < s.len() ==> chars_less(r.0@, #[trigger] s[k].0),
        decreases j,
    {
        j = j - 1;
    }
    proof {
        lemma_insert_at(s, row_view(r), j as int);
    }
    sorted.insert(j, r);
    assert(rows_view(sorted@) =~= s.take(j as int).push(row_view(r)) + s.skip(j as int));
}

/// The rows sorted by module name, rows with equal names keeping their order.
fn sort_rows(rows: Vec<Row>) -> (sorted: Vec<Row>)
    ensures
        rows_view(sorted@) == sort_by_name(rows_view(rows@)),
{
    let ghost all = rows_view(rows@);
    let ghost n = rows@.len();
    let mut sorted: Vec<Row> = Vec::new();
    for r in it: rows
        invariant
            it.seq() == rows@,
            all == rows_view(rows@),
            n == rows@.len(),
            rows_view(sorted@) == sort_by_name(all.take(it.index() as int)),
    {
        let ghost i = it.index();
        assert(row_view(r) == all[i as int]);
        insert_row(&mut sorted, r);
        assert(all.take(i + 1).drop_last() =~= all.take(i as int));
    }
    assert(all.take(n as int) =~= all);
    sorted
}

/// The text of the rows, one line each.
fn render(rows: &Vec<Row>) -> (text: String)
    ensures
        text@ == render_rows(rows_view(rows@)),
{
    let ghost rs = rows_view(rows@);
    let mut out: Vec<char> = Vec::new();
    let mut i: usize = 0;
    while i < rows.len()
        invariant
            i <= rows@.len(),
            rs == rows_view(rows@),
            out@ == render_rows(rs.take(i as int)),
        decreases rows@.len() - i,
    {
        let r = &rows[i];
        push_all(&mut out, r.0.as_slice());
        out.push('\t');
        let path = chars_of(r.1.as_str());
        push_all(&mut out, path.as_slice());
        out.push('\t');
        let line = decimal_string(r.2);
        let digits = chars_of(line.as_str());
        push_all(&mut out, digits.as_slice());
        out.push('\n');
        assert(rs.take(i + 1).drop_last() =~= rs.take(i as int));
        assert(rs.take(i + 1).last() == row_view(*r));
        assert(out@ =~= render_rows(rs.take(i as int)) + row_line(row_view(*r)));
        i = i + 1;
    }
    assert(rs.take(rows@.len() as int) =~= rs);
    string_of(out.as_slice())
}

// ---------------------------------------------------------------------------
// Outside collaborators: bincode for the stored index, dashmap for pending updates
// ---------------------------------------------------------------------------

/// The bytes that bincode writes for a listing of entries.
pub uninterp spec fn bincode_index_bytes(entries: Seq<EntryView>) -> Seq<u8>;

/// The listing that bincode reads from bytes, if they hold one.
pub uninterp spec fn bincode_index_entries(bytes: Seq<u8>) -> Option<Seq<EntryView>>;

/// `bincode::serialize` of the entries (fixed-width integers; a sequence of entries encodes
/// as a map from path to modules does). Claimed: the bytes are a function of the entries, and
/// `bincode::deserialize` reads the same entries back from them.
/// Serializing strings, vectors, tuples and integers into memory has no failing case.
#[verifier::external_body]
fn encode_entries(entries: &Vec<Entry>) -> (bytes: Vec<u8>)
    ensures
        bytes@ == bincode_index_bytes(entries_view(entries@)),
        bincode_index_entries(bytes@) == Some(entries_view(entries@)),
{
    bincode::serialize(entries).expect("Failed to save bin")
}

/// `bincode::deserialize` of a listing of entries. Claimed: whether it succeeds, and what it
/// reads, are a function of the bytes.
#[verifier::external_body]
fn decode_entries(bytes: &[u8]) -> (entries: Option<Vec<Entry>>)
    ensures
        match entries {
            Some(es) => bincode_index_entries(bytes@) == Some(entries_view(es@)),
            None => bincode_index_entries(bytes@) is None,
        },
{
    bincode::deserialize(bytes).ok()
}

#[verifier::external_type_specification]
#[verifier::external_body]
#[verifier::reject_recursive_types(K)]
#[verifier::reject_recursive_types(V)]
#[verifier::reject_recursive_types(S)]
pub struct ExDashMap<K, V, S>(DashMap<K, V, S>);

/// Updates recorded for source paths, waiting to be merged.
pub type PendingUpdates = DashMap<String, Vec<(String, usize)>>;

/// What a map of pending updates holds: the modules recorded for each source path.
pub uninterp spec fn pending_of(updates: PendingUpdates) -> Map<Seq<char>, Seq<ModuleView>>;

/// `DashMap::new`: an empty map of pending updates.
#[verifier::external_body]
fn new_updates() -> (fresh: PendingUpdates)
    ensures
        pending_of(fresh).dom().is_empty(),
{
    DashMap::new()
}

/// `DashMap::insert`: records `modules` for `path`, replacing what was recorded for it; every
/// other path keeps its modules.
#[verifier::external_body]
fn record_update(updates: &mut PendingUpdates, path: SourcePath, modules: Vec<Module>)
    ensures
        pending_of(*final(updates)) == pending_of(*old(updates)).insert(path@, modules_view(modules@)),
{
    updates.insert(path, modules);
}

/// `DashMap::clone` and `IntoIterator for DashMap`: the pending updates as a list, one entry per
/// path, in the map's own order (which follows its hasher, so no order is claimed).
#[verifier::external_body]
fn recorded_updates(updates: &PendingUpdates) -> (entries: Vec<Entry>)
    ensures
        distinct_keys(entries_view(entries@)),
        entries_map(entries_view(entries@)) == pending_of(*updates),
{
    updates.clone().into_iter().collect()
}

// ---------------------------------------------------------------------------
// The index
// ---------------------------------------------------------------------------

/// The path of the module listing inside `root_path`.
pub open spec fn index_file_of(root_path: Seq<char>) -> Seq<char> {
    join_path(root_path, "modules.index"@)
}

/// The path of the stored index inside `root_path`.
pub open spec fn bin_file_of(root_path: Seq<char>) -> Seq<char> {
    join_path(root_path, "modules.bin"@)
}

/// The path of the module listing inside `root_path`.
pub fn index_file_path(root_path: &str) -> (path: String)
    ensures
        path@ == index_file_of(root_path@),
{
    path_join(root_path, "modules.index")
}

/// The path of the stored index inside `root_path`.
pub fn bin_file_path(root_path: &str) -> (path: String)
    ensures
        path@ == bin_file_of(root_path@),
{
    path_join(root_path, "modules.bin")
}

/// The listing that stored bytes give: what they encode, each path keeping its last entry, or
/// nothing when there are no bytes or they do not decode.
pub open spec fn stored_entries(stored: Option<Seq<u8>>) -> Seq<EntryView> {
    match stored {
        Some(bytes) => match bincode_index_entries(bytes) {
            Some(es) => upsert_all(Seq::empty(), es),
            None => Seq::empty(),
        },
        None => Seq::empty(),
    }
}

/// The index of the modules of a project: the listing loaded from the stored index, and the
/// updates recorded since.
pub struct Index {
    index_path: String,
    bin_path: String,
    current_index: Vec<Entry>,
    index_updates: PendingUpdates,
}

impl Index {
    #[verifier::type_invariant]
    closed spec fn wf(self) -> bool {
        distinct_keys(entries_view(self.current_index@))
    }

    /// The current listing of entries, one per source path.
    pub closed spec fn current(&self) -> Seq<EntryView> {
        entries_view(self.current_index@)
    }

    /// The current map from source path to modules.
    pub open spec fn modules(&self) -> Map<Seq<char>, Seq<ModuleView>> {
        entries_map(self.current())
    }

    /// The updates recorded since the index was made, by source path.
    pub closed spec fn pending(&self) -> Map<Seq<char>, Seq<ModuleView>> {
        pending_of(self.index_updates)
    }

    pub closed spec fn index_path_view(&self) -> Seq<char> {
        self.index_path@
    }

    pub closed spec fn bin_path_view(&self) -> Seq<char> {
        self.bin_path@
    }

    /// An index kept in `root_path` whose listing records `entries` in turn (a later entry for
    /// a path replaces an earlier one).
    pub fn with_entries(root_path: &str, entries: Vec<Entry>) -> (index: Index)
        ensures
            index.index_path_view() == index_file_of(root_path@),
            index.bin_path_view() == bin_file_of(root_path@),
            distinct_keys(index.current()),
            index.current() == upsert_all(Seq::empty(), entries_view(entries@)),
            index.pending() == Map::<Seq<char>, Seq<ModuleView>>::empty(),
    {
        let index_path = index_file_path(root_path);
        let bin_path = bin_file_path(root_path);
        let mut current_index: Vec<Entry> = Vec::new();
        proof {
            lemma_upsert_all(Seq::empty(), entries_view(entries@));
        }
        assert(entries_view(current_index@) =~= Seq::<EntryView>::empty());
        upsert_entries(&mut current_index, entries);
        let index_updates = new_updates();
        assert(pending_of(index_updates) =~= Map::<Seq<char>, Seq<ModuleView>>::empty());
        Index { index_path, bin_path, current_index, index_updates }
    }

    /// An index kept in `root_path`, holding what `stored_bin` (the bytes of the stored index,
    /// if they could be read) encodes.
    pub fn new(root_path: &str, stored_bin: Option<&[u8]>) -> (index: Index)
        ensures
            index.index_path_view() == index_file_of(root_path@),
            index.bin_path_view() == bin_file_of(root_path@),
            distinct_keys(index.current()),
            index.pending() == Map::<Seq<char>, Seq<ModuleView>>::empty(),
            index.current() == stored_entries(
                match stored_bin {
                    Some(b) => Some(b@),
                    None => None,
                },
            ),
    {
        let entries = match stored_bin {
            Some(bytes) => match Self::load_bin(bytes) {
                Some(entries) => entries,
                None => Vec::new(),
            },
            None => Vec::new(),
        };
        assert(entries@.len() == 0 ==> upsert_all(Seq::empty(), entries_view(entries@)) =~= Seq::<EntryView>::empty());
        Self::with_entries(root_path, entries)
    }

    /// The entries that stored bytes encode, if they decode.
    pub fn load_bin(bytes: &[u8]) -> (entries: Option<Vec<Entry>>)
        ensures
            match entries {
                Some(es) => bincode_index_entries(bytes@) == Some(entries_view(es@)),
                None => bincode_index_entries(bytes@) is None,
            },
    {
        decode_entries(bytes)
    }

    /// Records the modules found in one source file, to be merged at the next save; they
    /// replace what was recorded for that file before.
    pub fn insert(&mut self, source_pathname: String, path_modules: Vec<Module>)
        ensures
            final(self).pending() == old(self).pending().insert(source_pathname@, modules_view(path_modules@)),
            final(self).current() == old(self).current(),
            final(self).index_path_view() == old(self).index_path_view(),
            final(self).bin_path_view() == old(self).bin_path_view(),
    {
        proof {
            use_type_invariant(&*self);
        }
        let mut updates = new_updates();
        std::mem::swap(&mut updates, &mut self.index_updates);
        record_update(&mut updates, source_pathname, path_modules);
        std::mem::swap(&mut updates, &mut self.index_updates);
    }

    /// Records the modules of each parsed source file in turn.
    pub fn insert_all(&mut self, parsed: Vec<Entry>)
        ensures
            final(self).pending() == old(self).pending().union_prefer_right(entries_map(entries_view(parsed@))),
            final(self).current() == old(self).current(),
            final(self).index_path_view() == old(self).index_path_view(),
            final(self).bin_path_view() == old(self).bin_path_view(),
    {
        let ghost es = entries_view(parsed@);
        let ghost start = self.pending();
        let ghost n = parsed@.len();
        for e in it: parsed
            invariant
                it.seq() == parsed@,
                es == entries_view(parsed@),
                n == parsed@.len(),
                self.pending() == start.union_prefer_right(entries_map(es.take(it.index() as int))),
                self.current() == old(self).current(),
                self.index_path_view() == old(self).index_path_view(),
                self.bin_path_view() == old(self).bin_path_view(),
        {
            let ghost i = it.index();
            assert(entry_view(e) == es[i as int]);
            self.insert(e.0, e.1);
            assert(es.take(i + 1).drop_last() =~= es.take(i as int));
            assert(es.take(i + 1).last() == es[i as int]);
            assert(self.pending() =~= start.union_prefer_right(entries_map(es.take(i + 1))));
        }
        assert(es.take(n as int) =~= es);
    }

    /// Merges `updates` into the current listing, each replacing the entry for its path.
    pub fn merge_updates(&mut self, updates: Vec<Entry>)
        ensures
            distinct_keys(final(self).current()),
            final(self).current() == upsert_all(old(self).current(), entries_view(updates@)),
            final(self).modules() == old(self).modules().union_prefer_right(entries_map(entries_view(updates@))),
            final(self).pending() == old(self).pending(),
            final(self).index_path_view() == old(self).index_path_view(),
            final(self).bin_path_view() == old(self).bin_path_view(),
    {
        proof {
            use_type_invariant(&*self);
            lemma_upsert_all(self.current(), entries_view(updates@));
        }
        let mut current: Vec<Entry> = Vec::new();
        std::mem::swap(&mut current, &mut self.current_index);
        upsert_entries(&mut current, updates);
        std::mem::swap(&mut current, &mut self.current_index);
    }

    /// The bytes of the stored index for the current listing.
    pub fn save_bin(&self) -> (bytes: Vec<u8>)
        ensures
            bytes@ == bincode_index_bytes(self.current()),
            bincode_index_entries(bytes@) == Some(self.current()),
    {
        encode_entries(&self.current_index)
    }

    /// The module listing for the current entries: one line per module, `name<TAB>path<TAB>line`,
    /// sorted by module name.
    pub fn save_index(&self) -> (text: String)
        ensures
            text@ == index_text(self.current()),
    {
        let rows = collect_rows(&self.current_index);
        let sorted = sort_rows(rows);
        render(&sorted)
    }

    /// Merges the recorded updates and gives what is to be written: the stored index and the
    /// module listing.
    pub fn save(&mut self) -> (saved: (Vec<u8>, String))
        ensures
            distinct_keys(final(self).current()),
            final(self).modules() == old(self).modules().union_prefer_right(old(self).pending()),
            final(self).pending() == old(self).pending(),
            exists|updates: Seq<EntryView>|
                distinct_keys(updates) && entries_map(updates) == old(self).pending()
                    && final(self).current() == upsert_all(old(self).current(), updates),
            saved.0@ == bincode_index_bytes(final(self).current()),
            bincode_index_entries(saved.0@) == Some(final(self).current()),
            saved.1@ == index_text(final(self).current()),
            final(self).index_path_view() == old(self).index_path_view(),
            final(self).bin_path_view() == old(self).bin_path_view(),
    {
        let updates = recorded_updates(&self.index_updates);
        let ghost ups = entries_view(updates@);
        self.merge_updates(updates);
        let bin = self.save_bin();
        let text = self.save_index();
        (bin, text)
    }

    /// The current listing of entries.
    pub fn entries(&self) -> (entries: &Vec<Entry>)
        ensures
            entries_view(entries@) == self.current(),
    {
        &self.current_index
    }

    /// Where the module listing is written.
    pub fn index_path(&self) -> (path: &String)
        ensures
            path@ == self.index_path_view(),
    {
        &self.index_path
    }

    /// Where the stored index is written.
    pub fn bin_path(&self) -> (path: &String)
        ensures
            path@ == self.bin_path_view(),
    {
        &self.bin_path
    }
}

/// Updates the index kept in `root_path` with the modules of freshly parsed source files:
/// loads what `stored_bin` (the bytes of the stored index, if they could be read) holds,
/// records each parsed file, saves, and gives the bytes of the new stored index and the new
/// module listing. The stored map is what was stored, overridden by each parsed file's modules.
pub fn updated_index(root_path: &str, stored_bin: Option<&[u8]>, parsed: Vec<Entry>) -> (saved: (Vec<u8>, String))
    ensures
        bincode_index_entries(saved.0@) matches Some(listing) && {
            &&& distinct_keys(listing)
            &&& entries_map(listing) == entries_map(
                stored_entries(
                    match stored_bin {
                        Some(b) => Some(b@),
                        None => None,
                    },
                ),
            ).union_prefer_right(entries_map(entries_view(parsed@)))
            &&& saved.0@ == bincode_index_bytes(listing)
            &&& saved.1@ == index_text(listing)
        },
{
    let mut index = Index::new(root_path, stored_bin);
    index.insert_all(parsed);
    assert(index.pending() =~= entries_map(entries_view(parsed@)));
    index.save()
}

// ---------------------------------------------------------------------------
// Laws of the module listing and of the stored index
// ---------------------------------------------------------------------------

/// No row is named before a row that comes earlier.
pub open spec fn sorted_by_name(rows: Seq<RowView>) -> bool {
    forall|i: int, j: int| 0 <= i < j < rows.len() ==> !chars_less(rows[j].0, rows[i].0)
}

proof fn lemma_not_less_transitive(a: Seq<char>, b: Seq<char>, c: Seq<char>)
    requires
        !chars_less(b, a),
        !chars_less(c, b),
    ensures
        !chars_less(c, a),
{
    lemma_chars_less_total(a, b);
    lemma_chars_less_total(b, c);
    if chars_less(c, a) {
        if a != b && b != c {
            lemma_chars_less_transitive(a, b, c);
            lemma_chars_less_asymmetric(a, c);
        } else if a == b {
            lemma_chars_less_asymmetric(c, b);
        } else {
            lemma_chars_less_asymmetric(a, b);
        }
    }
}

proof fn lemma_insert_keeps(s: Seq<RowView>, x: RowView, p: spec_fn(RowView) -> bool)
    requires
        forall|k: int| 0 <= k < s.len() ==> p(#[trigger] s[k]),
        p(x),
    ensures
        forall|k: int| 0 <= k < insert_by_name(s, x).len() ==> p(#[trigger] insert_by_name(s, x)[k]),
    decreases s.len(),
{
    if s.len() > 0 && chars_less(x.0, s.last().0) {
        let d = s.drop_last();
        assert forall|k: int| 0 <= k < d.len() implies p(#[trigger] d[k]) by {
            assert(d[k] == s[k]);
        }
        lemma_insert_keeps(d, x, p);
        let r = insert_by_name(s, x);
        let inner = insert_by_name(d, x);
        assert forall|k: int| 0 <= k < r.len() implies p(#[trigger] r[k]) by {
            if k < inner.len() {
                assert(r[k] == inner[k]);
            } else {
                assert(r[k] == s[s.len() - 1]);
            }
        }
    } else {
        let r = insert_by_name(s, x);
        assert forall|k: int| 0 <= k < r.len() implies p(#[trigger] r[k]) by {
            if k < s.len() {
                assert(r[k] == s[k]);
            }
        }
    }
}

/// Inserting into sorted rows keeps them sorted.
proof fn lemma_insert_sorted(s: Seq<RowView>, x: RowView)
    requires
        sorted_by_name(s),
    ensures
        sorted_by_name(insert_by_name(s, x)),
    decreases s.len(),
{
    if s.len() == 0 || !chars_less(x.0, s.last().0) {
        let r = s.push(x);
        assert forall|i: int, j: int| 0 <= i < j < r.len() implies !chars_less(r[j].0, r[i].0) by {
            if j == s.len() {
                if i < s.len() - 1 {
                    lemma_not_less_transitive(r[i].0, s.last().0, x.0);
                }
            }
        }
    } else {
        let d = s.drop_last();
        let last = s.last();
        lemma_insert_sorted(d, x);
        let inner = insert_by_name(d, x);
        lemma_chars_less_asymmetric(x.0, last.0);
        lemma_insert_keeps(d, x, |y: RowView| !chars_less(last.0, y.0));
        let r = inner.push(last);
        assert forall|i: int, j: int| 0 <= i < j < r.len() implies !chars_less(r[j].0, r[i].0) by {
            if j < inner.len() {
                assert(r[i] == inner[i] && r[j] == inner[j]);
            } else {
                assert(r[i] == inner[i]);
            }
        }
    }
}

/// The module listing is sorted by module name.
pub proof fn law_listing_sorted(rows: Seq<RowView>)
    ensures
        sorted_by_name(sort_by_name(rows)),
    decreases rows.len(),
{
    if rows.len() > 0 {
        law_listing_sorted(rows.drop_last());
        lemma_insert_sorted(sort_by_name(rows.drop_last()), rows.last());
    }
}

proof fn lemma_insert_multiset(s: Seq<RowView>, x: RowView)
    ensures
        insert_by_name(s, x).to_multiset() == s.to_multiset().insert(x),
    decreases s.len(),
{
    broadcast use vstd::seq_lib::group_to_multiset_ensures;

    if s.len() > 0 && chars_less(x.0, s.last().0) {
        let d = s.drop_last();
        lemma_insert_multiset(d, x);
        assert(s =~= d.push(s.last()));
        assert(insert_by_name(s, x).to_multiset() =~= s.to_multiset().insert(x));
    }
}

/// The module listing holds exactly the rows of the index, each as often as it occurs.
pub proof fn law_listing_permutes(rows: Seq<RowView>)
    ensures
        sort_by_name(rows).to_multiset() == rows.to_multiset(),
    decreases rows.len(),
{
    broadcast use vstd::seq_lib::group_to_multiset_ensures;

    if rows.len() > 0 {
        law_listing_permutes(rows.drop_last());
        lemma_insert_multiset(sort_by_name(rows.drop_last()), rows.last());
        assert(rows =~= rows.drop_last().push(rows.last()));
    } else {
        assert(sort_by_name(rows) =~= rows);
    }
}

proof fn lemma_upsert_all_distinct_identity(start: Seq<EntryView>, es: Seq<EntryView>)
    requires
        distinct_keys(start + es),
    ensures
        upsert_all(start, es) == start + es,
    decreases es.len(),
{
    if es.len() == 0 {
        assert(start + es =~= start);
    } else {
        let d = es.drop_last();
        assert(distinct_keys(start + d)) by {
            let all = start + es;
            let part = start + d;
            assert forall|i: int, j: int| 0 <= i < part.len() && 0 <= j < part.len() && i != j implies part[i].0 != part[j].0 by {
                assert(part[i] == all[i] && part[j] == all[j]);
            }
        }
        lemma_upsert_all_distinct_identity(start, d);
        let base = start + d;
        lemma_find_key(base, es.last().0);
        let all = start + es;
        assert(all[all.len() - 1] == es.last());
        assert forall|i: int| 0 <= i < base.len() implies base[i].0 != es.last().0 by {
            assert(base[i] == all[i]);
        }
        assert(find_key(base, es.last().0) is None);
        assert(base.push(es.last()) =~= start + es);
    }
}

/// The row of a module of the file at `path`.
pub open spec fn module_row(path: Seq<char>, m: ModuleView) -> RowView {
    (m.0, path, m.1)
}

/// The rows of one file: one per module, in order.
pub open spec fn file_rows(e: EntryView) -> Seq<RowView> {
    e.1.map_values(|m: ModuleView| module_row(e.0, m))
}

proof fn lemma_entry_rows_map(path: Seq<char>, mods: Seq<ModuleView>)
    ensures
        entry_rows(path, mods) == mods.map_values(|m: ModuleView| module_row(path, m)),
    decreases mods.len(),
{
    if mods.len() > 0 {
        lemma_entry_rows_map(path, mods.drop_last());
        assert(mods.map_values(|m: ModuleView| module_row(path, m)) =~= mods.drop_last().map_values(
            |m: ModuleView| module_row(path, m),
        ).push(module_row(path, mods.last())));
    } else {
        assert(mods.map_values(|m: ModuleView| module_row(path, m)) =~= Seq::<RowView>::empty());
    }
}

/// The listing has one row for every module of every file, and no other: the rows are, file
/// after file and module after module, each module's name, its file's path and its line.
pub proof fn law_one_row_per_module(es: Seq<EntryView>)
    ensures
        index_rows(es) == es.flat_map(|e: EntryView| file_rows(e)),
        index_rows(es).len() == es.map_values(|e: EntryView| file_rows(e)).flatten().len(),
    decreases es.len(),
{
    if es.len() > 0 {
        law_one_row_per_module(es.drop_last());
        lemma_entry_rows_map(es.last().0, es.last().1);
        let f = |e: EntryView| file_rows(e);
        assert(es.map_values(f) =~= es.drop_last().map_values(f).push(file_rows(es.last())));
        es.drop_last().map_values(f).lemma_flatten_push(file_rows(es.last()));
    } else {
        assert(es.map_values(|e: EntryView| file_rows(e)) =~= Seq::<Seq<RowView>>::empty());
        assert(es.map_values(|e: EntryView| file_rows(e)).flatten() =~= Seq::<RowView>::empty());
    }
}

/// The listing text is the lines of its rows, one after another, each line being name, tab,
/// path, tab, the line number in decimal, newline.
pub proof fn law_listing_text_is_row_lines(rows: Seq<RowView>)
    ensures
        render_rows(rows) == rows.flat_map(|r: RowView| row_line(r)),
        forall|r: RowView| #[trigger] row_line(r) == r.0 + seq!['\t'] + r.1 + seq!['\t'] + decimal(r.2 as nat) + seq!['\n'],
    decreases rows.len(),
{
    if rows.len() > 0 {
        law_listing_text_is_row_lines(rows.drop_last());
        let f = |r: RowView| row_line(r);
        assert(rows.map_values(f) =~= rows.drop_last().map_values(f).push(row_line(rows.last())));
        rows.drop_last().map_values(f).lemma_flatten_push(row_line(rows.last()));
    } else {
        assert(rows.map_values(|r: RowView| row_line(r)) =~= Seq::<Seq<char>>::empty());
        assert(rows.map_values(|r: RowView| row_line(r)).flatten() =~= Seq::<char>::empty());
    }
}

/// Loading what was saved gives back the saved listing: bytes that decode to a listing with
/// distinct paths load as exactly that listing.
pub proof fn law_stored_index_reloads(bytes: Seq<u8>, saved: Seq<EntryView>)
    requires
        distinct_keys(saved),
        bincode_index_entries(bytes) == Some(saved),
    ensures
        stored_entries(Some(bytes)) == saved,
{
    assert(Seq::<EntryView>::empty() + saved =~= saved);
    lemma_upsert_all_distinct_identity(Seq::empty(), saved);
}

} // verus!
