use vstd::prelude::*;

use crate::text::{
    chars_equal, chars_of, lemma_split_concat, lemma_split_single, pieces_view, split_chars, split_on,
    string_of,
};

verus! {

/// `rel` appended to `base` as `PathBuf::join` does on Unix: an absolute `rel` replaces `base`,
/// and a `/` goes between them unless `base` is empty or already ends with one.
pub open spec fn join_path(base: Seq<char>, rel: Seq<char>) -> Seq<char> {
    if rel.len() > 0 && rel[0] == '/' {
        rel
    } else if base.len() == 0 || base.last() == '/' {
        base + rel
    } else {
        base + seq!['/'] + rel
    }
}

/// The last segment of `segments` that is neither empty nor `.`, if there is one.
pub open spec fn last_normal_segment(segments: Seq<Seq<char>>) -> Option<Seq<char>>
    decreases segments.len(),
{
    if segments.len() == 0 {
        None
    } else if segments.last().len() == 0 || segments.last() == seq!['.'] {
        last_normal_segment(segments.drop_last())
    } else {
        Some(segments.last())
    }
}

/// The final component of a path when it is a name (what `Path::file_name` gives on Unix):
/// empty segments and `.` segments are skipped, and there is none when nothing is left or the
/// last segment is `..`.
pub open spec fn file_name(path: Seq<char>) -> Option<Seq<char>> {
    match last_normal_segment(split_on(path, '/')) {
        Some(seg) => if seg == seq!['.', '.'] {
            None
        } else {
            Some(seg)
        },
        None => None,
    }
}

/// Joins `rel` onto `base`.
pub fn path_join(base: &str, rel: &str) -> (joined: String)
    ensures
        joined@ == join_path(base@, rel@),
{
    let b = chars_of(base);
    let r = chars_of(rel);
    if r.len() > 0 && r[0] == '/' {
        return string_of(r.as_slice());
    }
    let mut out = b.clone();
    if !(b.len() == 0 || b[b.len() - 1] == '/') {
        out.push('/');
    }
    let mut i: usize = 0;
    let ghost start = out@;
    while i < r.len()
        invariant
            i <= r@.len(),
            out@ =~= start + r@.take(i as int),
        decreases r@.len() - i,
    {
        out.push(r[i]);
        i = i + 1;
    }
    assert(r@.take(r@.len() as int) =~= r@);
    string_of(out.as_slice())
}

/// The final name in `path`, if it has one.
pub fn path_file_name(path: &str) -> (name: Option<String>)
    ensures
        match name {
            Some(n) => file_name(path@) == Some(n@),
            None => file_name(path@) is None,
        },
{
    let chars = chars_of(path);
    let pieces = split_chars(chars.as_slice(), '/');
    let ghost segs = pieces_view(pieces@);
    let dot: Vec<char> = vec!['.'];
    let dots: Vec<char> = vec!['.', '.'];
    let mut k: usize = pieces.len();
    assert(segs.take(k as int) =~= segs);
    while k > 0 && (pieces[k - 1].len() == 0 || chars_equal(pieces[k - 1].as_slice(), dot.as_slice()))
        invariant
            k <= pieces@.len(),
            segs == pieces_view(pieces@),
            segs == split_on(chars@, '/'),
            dot@ == seq!['.'],
            dots@ == seq!['.', '.'],
            last_normal_segment(segs) == last_normal_segment(segs.take(k as int)),
        decreases k,
    {
        assert(segs.take((k - 1) as int) =~= segs.take(k as int).drop_last());
        k = k - 1;
    }
    if k == 0 {
        return None;
    }
    assert(segs.take(k as int).last() == pieces@[k - 1]@);
    if chars_equal(pieces[k - 1].as_slice(), dots.as_slice()) {
        None
    } else {
        Some(string_of(pieces[k - 1].as_slice()))
    }
}

/// Joining a plain name (non-empty, without `/`, neither `.` nor `..`) onto any path gives a
/// path whose final name is that name.
pub proof fn law_joined_name_is_file_name(base: Seq<char>, name: Seq<char>)
    requires
        name.len() > 0,
        forall|k: int| 0 <= k < name.len() ==> name[k] != '/',
        name != seq!['.'],
        name != seq!['.', '.'],
    ensures
        file_name(join_path(base, name)) == Some(name),
{
    lemma_split_single(name, '/');
    let joined = join_path(base, name);
    if base.len() == 0 {
        assert(joined =~= name);
    } else if base.last() == '/' {
        let front = base.drop_last();
        assert(joined =~= front + seq!['/'] + name);
        lemma_split_concat(front, '/', name);
    } else {
        assert(joined =~= base + seq!['/'] + name);
        lemma_split_concat(base, '/', name);
    }
    let segs = split_on(joined, '/');
    assert(segs.last() == name);
    assert(last_normal_segment(segs) == Some(name));
}

} // verus!
