use vstd::prelude::*;

verus! {

/// An instant, in nanoseconds since the Unix epoch (negative before it).
#[derive(Clone, Copy, Debug, PartialEq, Eq)]
pub struct Timestamp {
    pub nanos: i128,
}

/// Which source files are to be (re)indexed.
#[derive(Clone, Copy, Debug)]
pub enum FilterBy {
    /// Every file.
    All,
    /// The files modified strictly after the given instant.
    ModifiedSince(Timestamp),
}

/// What a listing of the source pattern gave for one path.
pub enum GlobEntry {
    /// An entry that could not be read.
    Unreadable,
    /// A path, with the instant it was last modified when that could be read.
    Found { path: String, modified: Option<Timestamp> },
}

/// A [`GlobEntry`] as mathematical values: `None` for an unreadable entry.
pub open spec fn glob_entry_view(e: GlobEntry) -> Option<(Seq<char>, Option<Timestamp>)> {
    match e {
        GlobEntry::Unreadable => None,
        GlobEntry::Found { path, modified } => Some((path@, modified)),
    }
}

pub open spec fn listing_view(v: Seq<GlobEntry>) -> Seq<Option<(Seq<char>, Option<Timestamp>)>> {
    v.map_values(|e: GlobEntry| glob_entry_view(e))
}

impl FilterBy {
    /// Whether a file last modified at `modified` (unknown when `None`) is kept: every file
    /// when nothing filters, otherwise exactly the files known to be modified after the instant.
    pub open spec fn keeps_spec(self, modified: Option<Timestamp>) -> bool {
        match self {
            FilterBy::All => true,
            FilterBy::ModifiedSince(since) => match modified {
                Some(m) => m.nanos > since.nanos,
                None => false,
            },
        }
    }

    /// The filter for a last update: by modification time when there is one, none otherwise.
    pub open spec fn for_last_update(last_updated: Option<Timestamp>) -> FilterBy {
        match last_updated {
            Some(t) => FilterBy::ModifiedSince(t),
            None => FilterBy::All,
        }
    }

    /// Filters by modification time when there is a last update, and not at all otherwise.
    pub fn new(last_updated: Option<Timestamp>) -> (filter: FilterBy)
        ensures
            filter == FilterBy::for_last_update(last_updated),
    {
        match last_updated {
            Some(time) => FilterBy::ModifiedSince(time),
            None => FilterBy::All,
        }
    }

    /// Whether a file last modified at `modified` is kept.
    pub fn keeps(&self, modified: Option<Timestamp>) -> (kept: bool)
        ensures
            kept == self.keeps_spec(modified),
    {
        match self {
            FilterBy::All => true,
            FilterBy::ModifiedSince(since) => match modified {
                Some(m) => m.nanos > since.nanos,
                None => false,
            },
        }
    }
}

/// The paths of a listing that are kept: readable entries that the filter keeps, in order.
pub open spec fn selected_paths(
    listing: Seq<Option<(Seq<char>, Option<Timestamp>)>>,
    filter: FilterBy,
) -> Seq<Seq<char>>
    decreases listing.len(),
{
    if listing.len() == 0 {
        Seq::empty()
    } else {
        let rest = selected_paths(listing.drop_last(), filter);
        match listing.last() {
            Some((path, modified)) => if filter.keeps_spec(modified) {
                rest.push(path)
            } else {
                rest
            },
            None => rest,
        }
    }
}

/// The paths of a listing of the source pattern that are to be indexed: the readable ones,
/// and, when `modified_since` is given, only those modified after it. There is always a
/// result.
pub fn get_paths(listing: Vec<GlobEntry>, modified_since: Option<Timestamp>) -> (paths: Option<Vec<String>>)
    ensures
        paths matches Some(ps) && ps@.map_values(|p: String| p@) == selected_paths(
            listing_view(listing@),
            FilterBy::for_last_update(modified_since),
        ),
{
    let filter_by = FilterBy::new(modified_since);
    let ghost lv = listing_view(listing@);
    let ghost n = listing@.len();
    let mut paths: Vec<String> = Vec::new();
    for entry in it: listing
        invariant
            it.seq() == listing@,
            lv == listing_view(listing@),
            n == listing@.len(),
            filter_by == FilterBy::for_last_update(modified_since),
            paths@.map_values(|p: String| p@) == selected_paths(lv.take(it.index() as int), filter_by),
    {
        let ghost i = it.index();
        assert(glob_entry_view(entry) == lv[i as int]);
        assert(lv.take(i + 1).drop_last() =~= lv.take(i as int));
        assert(lv.take(i + 1).last() == lv[i as int]);
        match entry {
            GlobEntry::Unreadable => {},
            GlobEntry::Found { path, modified } => {
                if filter_by.keeps(modified) {
                    let ghost before = paths@;
                    paths.push(path);
                    assert(paths@.map_values(|p: String| p@) =~= before.map_values(|p: String| p@).push(path@));
                }
            },
        }
    }
    assert(lv.take(n as int) =~= lv);
    Some(paths)
}

/// `a` is `b` with some elements left out, the rest in order.
pub open spec fn is_subsequence(a: Seq<Seq<char>>, b: Seq<Seq<char>>) -> bool
    decreases b.len(),
{
    if a.len() == 0 {
        true
    } else if b.len() == 0 {
        false
    } else if a.last() == b.last() {
        is_subsequence(a.drop_last(), b.drop_last()) || is_subsequence(a, b.drop_last())
    } else {
        is_subsequence(a, b.drop_last())
    }
}

proof fn lemma_subsequence_push(a: Seq<Seq<char>>, b: Seq<Seq<char>>, x: Seq<char>)
    requires
        is_subsequence(a, b),
    ensures
        is_subsequence(a, b.push(x)),
{
    assert(b.push(x).drop_last() =~= b);
}

proof fn lemma_selected_narrower(
    listing: Seq<Option<(Seq<char>, Option<Timestamp>)>>,
    narrow: FilterBy,
    wide: FilterBy,
)
    requires
        forall|m: Option<Timestamp>| narrow.keeps_spec(m) ==> wide.keeps_spec(m),
    ensures
        is_subsequence(selected_paths(listing, narrow), selected_paths(listing, wide)),
    decreases listing.len(),
{
    if listing.len() == 0 {
    } else {
        let front = listing.drop_last();
        lemma_selected_narrower(front, narrow, wide);
        let a = selected_paths(front, narrow);
        let b = selected_paths(front, wide);
        match listing.last() {
            Some((path, modified)) => {
                if narrow.keeps_spec(modified) {
                    assert(a.push(path).drop_last() =~= a);
                    assert(b.push(path).drop_last() =~= b);
                } else if wide.keeps_spec(modified) {
                    lemma_subsequence_push(a, b, path);
                }
            },
            None => {},
        }
    }
}

/// A later instant keeps fewer paths: with `t1` no later than `t2`, what is kept since `t2`
/// is a subsequence of what is kept since `t1`, which is a subsequence of all readable paths.
pub proof fn law_later_instant_keeps_fewer(
    listing: Seq<Option<(Seq<char>, Option<Timestamp>)>>,
    t1: Timestamp,
    t2: Timestamp,
)
    requires
        t1.nanos <= t2.nanos,
    ensures
        is_subsequence(
            selected_paths(listing, FilterBy::ModifiedSince(t2)),
            selected_paths(listing, FilterBy::ModifiedSince(t1)),
        ),
        is_subsequence(selected_paths(listing, FilterBy::ModifiedSince(t1)), selected_paths(listing, FilterBy::All)),
{
    lemma_selected_narrower(listing, FilterBy::ModifiedSince(t2), FilterBy::ModifiedSince(t1));
    lemma_selected_narrower(listing, FilterBy::ModifiedSince(t1), FilterBy::All);
}

/// Every readable path of a listing, in order.
pub open spec fn readable_path(e: Option<(Seq<char>, Option<Timestamp>)>) -> Option<Seq<char>> {
    match e {
        Some((path, _)) => Some(path),
        None => None,
    }
}

/// The path of an entry known to be modified strictly after `since`.
pub open spec fn path_newer_than(since: Timestamp, e: Option<(Seq<char>, Option<Timestamp>)>) -> Option<Seq<char>> {
    match e {
        Some((path, Some(m))) => if m.nanos > since.nanos {
            Some(path)
        } else {
            None
        },
        _ => None,
    }
}

/// Which paths are chosen depends on nothing but whether an entry was readable and its
/// modification time: with no last update every readable path is chosen, in order; with a last
/// update exactly the readable paths modified strictly after it are chosen, in order.
pub proof fn law_selected_paths(listing: Seq<Option<(Seq<char>, Option<Timestamp>)>>, since: Timestamp)
    ensures
        selected_paths(listing, FilterBy::All) == listing.filter_map(|e| readable_path(e)),
        selected_paths(listing, FilterBy::ModifiedSince(since)) == listing.filter_map(
            |e| path_newer_than(since, e),
        ),
    decreases listing.len(),
{
    if listing.len() > 0 {
        law_selected_paths(listing.drop_last(), since);
        let rest = listing.drop_last();
        let a = selected_paths(rest, FilterBy::All);
        let b = selected_paths(rest, FilterBy::ModifiedSince(since));
        match listing.last() {
            Some((path, _)) => {
                assert(a.push(path) =~= a + seq![path]);
                assert(b.push(path) =~= b + seq![path]);
            },
            None => {},
        }
    }
}

} // verus!
