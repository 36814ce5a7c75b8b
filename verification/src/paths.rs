//! Lexical path handling for extraction.
//!
//! A record's filename is joined under the destination root and normalized:
//! `.` segments and empty segments collapse, and a `..` segment removes the
//! segment before it, as a defense against archive-embedded traversal.  The
//! normalization is purely lexical; it does not consult the file system.
//!
//! Paths are '/'-separated text.  The specification works on the segment
//! level: splitting, collapsing, and joining are each defined as functions
//! of the character sequence.

use vstd::prelude::*;
use vstd::string::StrSliceExecFns;
use vstd::string::StringExecFns;

verus! {

/// The segments of `s`, split at every '/': one more segment than there are
/// slashes, and segments may be empty.
pub open spec fn spec_split(s: Seq<char>) -> Seq<Seq<char>>
    decreases s.len(),
{
    if s.len() == 0 {
        seq![Seq::<char>::empty()]
    } else if s[0] == '/' {
        seq![Seq::<char>::empty()] + spec_split(s.skip(1))
    } else {
        let rest = spec_split(s.skip(1));
        seq![seq![s[0]] + rest[0]] + rest.skip(1)
    }
}

/// A split always yields at least one segment.
pub proof fn lemma_split_len(s: Seq<char>)
    ensures
        spec_split(s).len() >= 1,
    decreases s.len(),
{
    if s.len() > 0 {
        lemma_split_len(s.skip(1));
    }
}

/// When the first `i` characters hold no '/', the split is the first `i`
/// characters as one segment, followed by the split of what comes after the
/// slash at `i` — or that one segment alone if the path ends there.
proof fn lemma_split_at_slash(s: Seq<char>, i: int)
    requires
        0 <= i <= s.len(),
        forall|j: int| 0 <= j < i ==> s[j] != '/',
        i < s.len() ==> s[i] == '/',
    ensures
        spec_split(s) == if i < s.len() {
            seq![s.take(i)] + spec_split(s.skip(i + 1))
        } else {
            seq![s]
        },
    decreases i,
{
    lemma_split_len(s);
    if s.len() == 0 {
        assert(spec_split(s) =~~= seq![s]);
    } else if i == 0 {
        assert(s.take(0) =~= Seq::<char>::empty());
        assert(seq![s.take(0)] + spec_split(s.skip(1)) =~= spec_split(s));
    } else {
        let tail = s.skip(1);
        lemma_split_at_slash(tail, i - 1);
        lemma_split_len(tail);
        let rest = spec_split(tail);
        if i < s.len() {
            assert(rest == seq![tail.take(i - 1)] + spec_split(tail.skip(i)));
            assert(rest[0] == tail.take(i - 1));
            assert(seq![s[0]] + tail.take(i - 1) =~= s.take(i));
            assert(rest.skip(1) =~= spec_split(tail.skip(i)));
            assert(tail.skip(i) =~= s.skip(i + 1));
            assert(spec_split(s) =~= seq![s.take(i)] + spec_split(s.skip(i + 1)));
        } else {
            assert(rest == seq![tail]);
            assert(rest[0] == tail);
            assert(seq![s[0]] + tail =~= s);
            assert(rest.skip(1) =~= Seq::<Seq<char>>::empty());
            assert(spec_split(s) =~= seq![s]);
        }
    }
}

/// Whether two pieces of text hold the same characters.
pub fn str_eq(a: &str, b: &str) -> (r: bool)
    ensures
        r == (a@ == b@),
{
    let n = a.unicode_len();
    if n != b.unicode_len() {
        proof {
            assert(a@ != b@) by {
                if a@ == b@ {
                    assert(a@.len() == b@.len());
                }
            }
        }
        return false;
    }
    let mut i: usize = 0;
    while i < n
        invariant
            i <= n,
            n == a@.len(),
            n == b@.len(),
            forall|j: int| 0 <= j < i ==> a@[j] == b@[j],
        decreases n - i,
    {
        if a.get_char(i) != b.get_char(i) {
            proof {
                assert(a@ != b@) by {
                    assert(a@[i as int] != b@[i as int]);
                }
            }
            return false;
        }
        i = i + 1;
    }
    proof {
        assert(a@ =~= b@);
    }
    true
}

/// One step of normalization: an empty or `.` segment changes nothing, a
/// `..` segment removes the last collapsed segment if there is one, and any
/// other segment is kept.
pub open spec fn norm_push(acc: Seq<Seq<char>>, seg: Seq<char>) -> Seq<Seq<char>> {
    if seg.len() == 0 || seg == seq!['.'] {
        acc
    } else if seg == seq!['.', '.'] {
        if acc.len() > 0 {
            acc.drop_last()
        } else {
            acc
        }
    } else {
        acc.push(seg)
    }
}

/// The collapsed segments of a segment list, left to right.
pub open spec fn norm_all(segs: Seq<Seq<char>>) -> Seq<Seq<char>>
    decreases segs.len(),
{
    if segs.len() == 0 {
        Seq::empty()
    } else {
        norm_push(norm_all(segs.drop_last()), segs.last())
    }
}

/// Segments joined with '/' between them.
pub open spec fn spec_join(segs: Seq<Seq<char>>) -> Seq<char>
    decreases segs.len(),
{
    if segs.len() == 0 {
        Seq::empty()
    } else if segs.len() == 1 {
        segs[0]
    } else {
        spec_join(segs.drop_last()) + seq!['/'] + segs.last()
    }
}

/// The normalized form of a path: its collapsed segments joined again, with
/// a leading '/' kept for an absolute path, and `.` for a path that
/// collapses to nothing.
pub open spec fn spec_normalized(s: Seq<char>) -> Seq<char> {
    let abs = s.len() > 0 && s[0] == '/';
    let joined = if abs {
        seq!['/'] + spec_join(norm_all(spec_split(s)))
    } else {
        spec_join(norm_all(spec_split(s)))
    };
    if joined.len() == 0 {
        seq!['.']
    } else {
        joined
    }
}

/// A filename joined under a destination: an absolute filename replaces the
/// destination, anything else is appended with a '/' between.
pub open spec fn spec_joined_path(dest: Seq<char>, name: Seq<char>) -> Seq<char> {
    if name.len() > 0 && name[0] == '/' {
        name
    } else if dest.len() == 0 {
        name
    } else {
        dest + seq!['/'] + name
    }
}

/// The target path of a record: its filename joined under the destination
/// root, normalized.
pub open spec fn spec_normalize_join(dest: Seq<char>, name: Seq<char>) -> Seq<char> {
    spec_normalized(spec_joined_path(dest, name))
}

/// Split a path into its segments at every '/'.
pub fn split_path(s: &str) -> (r: Vec<String>)
    ensures
        r@.map_values(|x: String| x@) == spec_split(s@),
        r@.len() >= 1,
{
    let len = s.unicode_len();
    let mut segs: Vec<String> = Vec::new();
    let mut start: usize = 0;
    let mut i: usize = 0;
    proof {
        assert(s@.skip(0) =~= s@);
        assert(segs@.map_values(|x: String| x@) =~= Seq::<Seq<char>>::empty());
    }
    while i < len
        invariant
            len == s@.len(),
            start <= i <= len,
            forall|j: int| start <= j < i ==> s@[j] != '/',
            spec_split(s@) =~= segs@.map_values(|x: String| x@) + spec_split(
                s@.skip(start as int),
            ),
        decreases len - i,
    {
        if s.get_char(i) == '/' {
            let seg = s.substring_char(start, i).to_owned();
            proof {
                let tail = s@.skip(start as int);
                assert(forall|j: int| 0 <= j < i - start ==> tail[j] == s@[start + j]);
                lemma_split_at_slash(tail, i - start);
                assert(tail.take(i - start) =~= s@.subrange(start as int, i as int));
                assert(tail.skip(i - start + 1) =~= s@.skip(i + 1));
                assert((segs@ + seq![seg]).map_values(|x: String| x@) =~= segs@.map_values(
                    |x: String| x@,
                ) + seq![seg@]);
                assert(spec_split(s@) =~= (segs@ + seq![seg]).map_values(|x: String| x@)
                    + spec_split(s@.skip(i + 1)));
            }
            segs.push(seg);
            start = i + 1;
        }
        i = i + 1;
    }
    let last = s.substring_char(start, len).to_owned();
    proof {
        let tail = s@.skip(start as int);
        assert(forall|j: int| 0 <= j < tail.len() ==> tail[j] == s@[start + j]);
        lemma_split_at_slash(tail, tail.len() as int);
        assert(tail =~= s@.subrange(start as int, len as int));
        assert(spec_split(s@.skip(start as int)) == seq![tail]);
        assert((segs@ + seq![last]).map_values(|x: String| x@) =~= segs@.map_values(
            |x: String| x@,
        ) + seq![last@]);
        assert((segs@ + seq![last]).map_values(|x: String| x@) =~= spec_split(s@));
    }
    segs.push(last);
    segs
}

/// Collapse a segment list: drop empty and `.` segments, let `..` remove
/// the segment before it.
pub fn normalize_segments(segs: Vec<String>) -> (r: Vec<String>)
    ensures
        r@.map_values(|x: String| x@) == norm_all(segs@.map_values(|x: String| x@)),
{
    let dot: String = String::from_str(".");
    let dotdot: String = String::from_str("..");
    proof {
        reveal_strlit(".");
        reveal_strlit("..");
        assert(dot@ =~= seq!['.']);
        assert(dotdot@ =~= seq!['.', '.']);
    }
    let ghost views = segs@.map_values(|x: String| x@);
    let mut acc: Vec<String> = Vec::new();
    let mut i: usize = 0;
    proof {
        assert(views.take(0) =~= Seq::<Seq<char>>::empty());
        assert(acc@.map_values(|x: String| x@) =~= Seq::<Seq<char>>::empty());
    }
    while i < segs.len()
        invariant
            i <= segs@.len(),
            dot@ == seq!['.'],
            dotdot@ == seq!['.', '.'],
            views == segs@.map_values(|x: String| x@),
            acc@.map_values(|x: String| x@) =~= norm_all(views.take(i as int)),
        decreases segs@.len() - i,
    {
        proof {
            assert(views.take(i + 1).drop_last() =~= views.take(i as int));
            assert(views.take(i + 1).last() == views[i as int]);
        }
        let seg = &segs[i];
        if seg.as_str().unicode_len() == 0 || str_eq(seg.as_str(), dot.as_str()) {
        } else if str_eq(seg.as_str(), dotdot.as_str()) {
            if acc.len() > 0 {
                let _ = acc.pop();
                proof {
                    assert(acc@.map_values(|x: String| x@) =~= norm_all(
                        views.take(i as int),
                    ).drop_last());
                }
            }
        } else {
            acc.push(seg.clone());
            proof {
                assert(acc@.map_values(|x: String| x@) =~= norm_all(views.take(i as int)).push(
                    seg@,
                ));
            }
        }
        i = i + 1;
    }
    proof {
        assert(views.take(views.len() as int) =~= views);
    }
    acc
}

/// Join a path under the destination root and normalize it.
pub fn normalize_join(destination: &str, name: &str) -> (r: String)
    ensures
        r@ == spec_normalize_join(destination@, name@),
{
    let name_len = name.unicode_len();
    let joined: String = if name_len > 0 && name.get_char(0) == '/' {
        name.to_owned()
    } else if destination.unicode_len() == 0 {
        name.to_owned()
    } else {
        let mut j = destination.to_owned();
        j.append("/");
        j.append(name);
        proof {
            reveal_strlit("/");
            assert(j@ =~= destination@ + seq!['/'] + name@);
        }
        j
    };
    proof {
        assert(joined@ == spec_joined_path(destination@, name@));
    }
    let abs = joined.as_str().unicode_len() > 0 && joined.as_str().get_char(0) == '/';
    let segs = split_path(joined.as_str());
    let norm = normalize_segments(segs);
    let mut out = String::new();
    if abs {
        out.append("/");
        proof {
            reveal_strlit("/");
            assert(out@ =~= seq!['/']);
        }
    }
    let ghost prefix: Seq<char> = out@;
    let ghost views = norm@.map_values(|x: String| x@);
    let mut i: usize = 0;
    proof {
        assert(views.take(0) =~= Seq::<Seq<char>>::empty());
        assert(out@ =~= prefix + spec_join(views.take(0)));
    }
    while i < norm.len()
        invariant
            i <= norm@.len(),
            views == norm@.map_values(|x: String| x@),
            out@ =~= prefix + spec_join(views.take(i as int)),
        decreases norm@.len() - i,
    {
        proof {
            assert(views.take(i + 1).drop_last() =~= views.take(i as int));
            assert(views.take(i + 1).last() == views[i as int]);
            if i == 0 {
                assert(views.take(1) =~= seq![views[0]]);
            }
        }
        if i > 0 {
            out.append("/");
            proof {
                reveal_strlit("/");
            }
        }
        out.append(norm[i].as_str());
        proof {
            assert(out@ =~= prefix + spec_join(views.take(i + 1)));
        }
        i = i + 1;
    }
    proof {
        assert(views.take(views.len() as int) =~= views);
    }
    if out.as_str().unicode_len() == 0 {
        let dot = String::from_str(".");
        proof {
            reveal_strlit(".");
            assert(dot@ =~= seq!['.']);
        }
        return dot;
    }
    out
}

/// The non-empty segments of a list, with `.` segments dropped.
pub open spec fn clean_segs(segs: Seq<Seq<char>>) -> Seq<Seq<char>>
    decreases segs.len(),
{
    if segs.len() == 0 {
        Seq::empty()
    } else {
        let rest = clean_segs(segs.drop_last());
        let last = segs.last();
        if last.len() == 0 || last == seq!['.'] {
            rest
        } else {
            rest.push(last)
        }
    }
}

/// The components a path is compared by: a '/' marker for an absolute path
/// or a leading `.` kept as its own component, then the non-empty segments
/// with any other `.` dropped.
pub open spec fn spec_components(s: Seq<char>) -> Seq<Seq<char>> {
    let marker: Seq<Seq<char>> = if s.len() > 0 && s[0] == '/' {
        seq![seq!['/']]
    } else if spec_split(s)[0] == seq!['.'] {
        seq![seq!['.']]
    } else {
        Seq::empty()
    };
    marker + clean_segs(spec_split(s))
}

/// Whether `prefix` names the path `name` or one of its ancestors: the
/// components of `prefix` are a prefix of the components of `name`.
pub open spec fn spec_path_starts_with(name: Seq<char>, prefix: Seq<char>) -> bool {
    let nc = spec_components(name);
    let pc = spec_components(prefix);
    pc.len() <= nc.len() && pc == nc.take(pc.len() as int)
}

/// The component list of a path.
#[verifier::rlimit(30)]
pub fn path_components(s: &str) -> (r: Vec<String>)
    ensures
        r@.map_values(|x: String| x@) == spec_components(s@),
{
    let dot: String = String::from_str(".");
    let slash: String = String::from_str("/");
    proof {
        reveal_strlit(".");
        reveal_strlit("/");
        assert(dot@ =~= seq!['.']);
        assert(slash@ =~= seq!['/']);
    }
    let segs = split_path(s);
    let ghost views = segs@.map_values(|x: String| x@);
    let mut out: Vec<String> = Vec::new();
    if s.unicode_len() > 0 && s.get_char(0) == '/' {
        out.push(slash);
    } else if str_eq(segs[0].as_str(), dot.as_str()) {
        out.push(dot.clone());
    }
    let ghost marker = out@.map_values(|x: String| x@);
    proof {
        assert(marker =~= if s@.len() > 0 && s@[0] == '/' {
            seq![seq!['/']]
        } else if spec_split(s@)[0] == seq!['.'] {
            seq![seq!['.']]
        } else {
            Seq::<Seq<char>>::empty()
        });
        assert(views.take(0) =~= Seq::<Seq<char>>::empty());
        assert(out@.map_values(|x: String| x@) =~= marker + clean_segs(views.take(0)));
    }
    let mut i: usize = 0;
    while i < segs.len()
        invariant
            i <= segs@.len(),
            dot@ == seq!['.'],
            views == segs@.map_values(|x: String| x@),
            out@.map_values(|x: String| x@) =~= marker + clean_segs(views.take(i as int)),
        decreases segs@.len() - i,
    {
        proof {
            assert(views.take(i + 1).drop_last() =~= views.take(i as int));
            assert(views.take(i + 1).last() == views[i as int]);
        }
        let seg = &segs[i];
        if seg.as_str().unicode_len() == 0 || str_eq(seg.as_str(), dot.as_str()) {
        } else {
            out.push(seg.clone());
            proof {
                assert(out@.map_values(|x: String| x@) =~= (marker + clean_segs(
                    views.take(i as int),
                )).push(seg@));
                assert((marker + clean_segs(views.take(i as int))).push(seg@) =~= marker
                    + clean_segs(views.take(i as int)).push(seg@));
            }
        }
        i = i + 1;
    }
    proof {
        assert(views.take(views.len() as int) =~= views);
    }
    out
}

/// Whether `prefix` names the path `name` itself or one of its ancestors.
pub fn path_starts_with(name: &str, prefix: &str) -> (r: bool)
    ensures
        r == spec_path_starts_with(name@, prefix@),
{
    let nc = path_components(name);
    let pc = path_components(prefix);
    let ghost nviews = nc@.map_values(|x: String| x@);
    let ghost pviews = pc@.map_values(|x: String| x@);
    if pc.len() > nc.len() {
        return false;
    }
    let mut i: usize = 0;
    while i < pc.len()
        invariant
            i <= pc@.len() <= nc@.len(),
            nviews == nc@.map_values(|x: String| x@),
            pviews == pc@.map_values(|x: String| x@),
            nviews == spec_components(name@),
            pviews == spec_components(prefix@),
            forall|j: int| 0 <= j < i ==> pviews[j] == nviews[j],
        decreases pc@.len() - i,
    {
        if !str_eq(pc[i].as_str(), nc[i].as_str()) {
            proof {
                assert(pviews != nviews.take(pviews.len() as int)) by {
                    assert(nviews.take(pviews.len() as int)[i as int] == nviews[i as int]);
                    assert(pviews[i as int] != nviews[i as int]);
                }
            }
            return false;
        }
        i = i + 1;
    }
    proof {
        assert(pviews =~= nviews.take(pviews.len() as int));
    }
    true
}

/// Whether a record filename is selected: an empty filter selects every
/// record, otherwise some filter entry must name the record's path or one
/// of its ancestors.
pub open spec fn spec_matches_filter(name: Seq<char>, filter: Seq<Seq<char>>) -> bool {
    filter.len() == 0 || exists|j: int|
        0 <= j < filter.len() && spec_path_starts_with(name, filter[j])
}

/// Whether a record filename is selected by the filter list.
pub fn matches_filter(name: &str, filter: &Vec<String>) -> (r: bool)
    ensures
        r == spec_matches_filter(name@, filter@.map_values(|x: String| x@)),
{
    let ghost fviews = filter@.map_values(|x: String| x@);
    if filter.len() == 0 {
        return true;
    }
    let mut j: usize = 0;
    while j < filter.len()
        invariant
            j <= filter@.len(),
            fviews == filter@.map_values(|x: String| x@),
            forall|k: int| 0 <= k < j ==> !spec_path_starts_with(name@, #[trigger] fviews[k]),
        decreases filter@.len() - j,
    {
        if path_starts_with(name, filter[j].as_str()) {
            proof {
                assert(spec_path_starts_with(name@, fviews[j as int]));
            }
            return true;
        }
        j = j + 1;
    }
    false
}

} // verus!
