//! Indexed element paths such as `/idm/uc[0]/subUc[1]`: parsing and
//! formatting.
use vstd::prelude::*;
use crate::text::{
    find_last, last_index_of, lemma_last_index_of, parse_usize, push_char, push_decimal,
    spec_decimal, spec_local_part, spec_parse_usize, string_of_range, to_chars,
};

verus! {

/// One step of a path: a local element name and its index among the
/// same-name siblings.
#[derive(Debug)]
pub struct PathSegment {
    pub name: String,
    pub index: usize,
}

pub struct SegmentView {
    pub name: Seq<char>,
    pub index: nat,
}

impl View for PathSegment {
    type V = SegmentView;

    open spec fn view(&self) -> SegmentView {
        SegmentView { name: self.name@, index: self.index as nat }
    }
}

/// The views of a sequence of segments.
pub open spec fn segments_view(s: Seq<PathSegment>) -> Seq<SegmentView> {
    s.map_values(|p: PathSegment| p@)
}

/// One non-empty `/`-separated part of a path: a name, optionally followed by
/// `[index]`; the name may carry a prefix, of which only the local part is
/// kept, and may neither be empty nor start with `@`.
pub open spec fn spec_parse_segment(raw: Seq<char>) -> Option<SegmentView> {
    let split: Option<(Seq<char>, nat)> = match last_index_of(raw, '[') {
        Some(k) => {
            let suffix = raw.skip(k + 1);
            if suffix.len() > 0 && suffix.last() == ']' {
                match spec_parse_usize(suffix.drop_last()) {
                    Some(n) => Some((raw.take(k), n)),
                    None => None,
                }
            } else {
                None
            }
        },
        None => Some((raw, 0nat)),
    };
    match split {
        Some((name, index)) => if name.len() == 0 || name[0] == '@' {
            None
        } else {
            Some(SegmentView { name: spec_local_part(name), index })
        },
        None => None,
    }
}

/// Adds the pending part `current` (if non-empty) to the segments read so far;
/// `None` once any part was malformed.
pub open spec fn flush_part(acc: Option<Seq<SegmentView>>, current: Seq<char>) -> Option<Seq<SegmentView>> {
    if current.len() == 0 {
        acc
    } else {
        match acc {
            Some(a) => match spec_parse_segment(current) {
                Some(seg) => Some(a.push(seg)),
                None => None,
            },
            None => None,
        }
    }
}

/// Reads `p` from left to right: the segments of the completed parts and the
/// characters of the part being read.
pub open spec fn scan_path(p: Seq<char>) -> (Option<Seq<SegmentView>>, Seq<char>)
    decreases p.len(),
{
    if p.len() == 0 {
        (Some(Seq::empty()), Seq::empty())
    } else {
        let (acc, current) = scan_path(p.drop_last());
        if p.last() == '/' {
            (flush_part(acc, current), Seq::empty())
        } else {
            (acc, current.push(p.last()))
        }
    }
}

/// The segments of an absolute path, or `None` where the path is malformed:
/// it must start with `/` and hold at least one segment.
pub open spec fn spec_parse_path(p: Seq<char>) -> Option<Seq<SegmentView>> {
    if p.len() == 0 || p[0] != '/' {
        None
    } else {
        match flush_part(scan_path(p).0, scan_path(p).1) {
            Some(a) => if a.len() > 0 { Some(a) } else { None },
            None => None,
        }
    }
}

proof fn lemma_scan_failure_persists(p: Seq<char>, i: int)
    requires
        0 <= i <= p.len(),
        scan_path(p.take(i)).0 is None,
    ensures
        scan_path(p).0 is None,
    decreases p.len() - i,
{
    if i < p.len() {
        assert(p.take(i + 1).drop_last() =~= p.take(i));
        lemma_scan_failure_persists(p, i + 1);
    } else {
        assert(p.take(i) =~= p);
    }
}

fn parse_segment(v: &[char], lo: usize, hi: usize) -> (r: Option<PathSegment>)
    requires
        lo < hi <= v@.len(),
    ensures
        r matches Some(s) ==> spec_parse_segment(v@.subrange(lo as int, hi as int)) == Some(s@),
        r is None ==> spec_parse_segment(v@.subrange(lo as int, hi as int)) is None,
{
    let ghost raw = v@.subrange(lo as int, hi as int);
    let mut name_end = hi;
    let mut index: usize = 0;
    match find_last(v, lo, hi, '[') {
        Some(k) => {
            proof { lemma_last_index_of(raw, '['); }
            assert(raw.skip(k - lo + 1) =~= v@.subrange(k + 1, hi as int));
            if k + 1 < hi && v[hi - 1] == ']' {
                assert(v@.subrange(k + 1, hi as int).drop_last() =~= v@.subrange(k + 1, hi - 1));
                match parse_usize(v, k + 1, hi - 1) {
                    Some(n) => {
                        index = n;
                        name_end = k;
                        assert(raw.take(k - lo) =~= v@.subrange(lo as int, k as int));
                    },
                    None => {
                        return None;
                    },
                }
            } else {
                return None;
            }
        },
        None => {},
    }
    assert(v@.subrange(lo as int, name_end as int) == (match last_index_of(raw, '[') {
        Some(k) => raw.take(k),
        None => raw,
    }));
    if name_end == lo || v[lo] == '@' {
        return None;
    }
    let ghost name = v@.subrange(lo as int, name_end as int);
    let start = match find_last(v, lo, name_end, ':') {
        Some(c) => {
            proof { lemma_last_index_of(name, ':'); }
            assert(name.skip(c - lo + 1) =~= v@.subrange(c + 1, name_end as int));
            c + 1
        },
        None => lo,
    };
    Some(PathSegment { name: string_of_range(v, start, name_end), index })
}

/// Parses an absolute path into its segments.
pub fn parse_path(path: &str) -> (r: Option<Vec<PathSegment>>)
    ensures
        r matches Some(s) ==> spec_parse_path(path@) == Some(segments_view(s@)),
        r is None ==> spec_parse_path(path@) is None,
{
    let v = to_chars(path);
    if v.len() == 0 || v[0] != '/' {
        return None;
    }
    let mut segments: Vec<PathSegment> = Vec::new();
    let mut start: usize = 0;
    let mut i: usize = 0;
    while i < v.len()
        invariant
            v@ == path@,
            start <= i <= v@.len(),
            scan_path(v@.take(i as int)).0 == Some(segments_view(segments@)),
            scan_path(v@.take(i as int)).1 == v@.subrange(start as int, i as int),
        decreases v@.len() - i,
    {
        assert(v@.take(i + 1).drop_last() =~= v@.take(i as int));
        if v[i] == '/' {
            if start < i {
                match parse_segment(&v, start, i) {
                    Some(seg) => {
                        let ghost before = segments@;
                        let ghost sv = seg@;
                        segments.push(seg);
                        assert(segments_view(segments@) =~= segments_view(before).push(sv));
                    },
                    None => {
                        proof { lemma_scan_failure_persists(v@, i + 1); }
                        return None;
                    },
                }
            }
            start = i + 1;
            assert(v@.subrange(start as int, i + 1) =~= Seq::<char>::empty());
        } else {
            assert(v@.subrange(start as int, i + 1) =~= v@.subrange(start as int, i as int).push(v@[i as int]));
        }
        i += 1;
    }
    assert(v@.take(v@.len() as int) =~= v@);
    if start < v.len() {
        match parse_segment(&v, start, v.len()) {
            Some(seg) => {
                let ghost before = segments@;
                let ghost sv = seg@;
                segments.push(seg);
                assert(segments_view(segments@) =~= segments_view(before).push(sv));
            },
            None => {
                return None;
            },
        }
    }
    assert(segments_view(segments@) =~= flush_part(scan_path(v@).0, scan_path(v@).1).unwrap());
    if segments.len() == 0 {
        return None;
    }
    Some(segments)
}

/// `/name` per segment, with `[index]` only where the index is not zero.
pub open spec fn spec_format_path(segments: Seq<SegmentView>) -> Seq<char>
    decreases segments.len(),
{
    if segments.len() == 0 {
        Seq::empty()
    } else {
        let last = segments.last();
        spec_format_path(segments.drop_last()) + seq!['/'] + last.name + if last.index > 0 {
            seq!['['] + spec_decimal(last.index) + seq![']']
        } else {
            Seq::empty()
        }
    }
}

/// Formats `segments[..count]`.
pub fn format_path(segments: &[PathSegment], count: usize) -> (r: String)
    requires
        count <= segments@.len(),
    ensures
        r@ == spec_format_path(segments_view(segments@.take(count as int))),
{
    let mut r = String::new();
    let mut i: usize = 0;
    while i < count
        invariant
            i <= count <= segments@.len(),
            r@ == spec_format_path(segments_view(segments@.take(i as int))),
        decreases count - i,
    {
        let ghost before = r@;
        push_char(&mut r, '/');
        r.append(segments[i].name.as_str());
        if segments[i].index > 0 {
            push_char(&mut r, '[');
            push_decimal(&mut r, segments[i].index);
            push_char(&mut r, ']');
        }
        proof {
            let s = segments_view(segments@.take(i + 1));
            assert(s.drop_last() =~= segments_view(segments@.take(i as int)));
            assert(s.last() == segments@[i as int]@);
        }
        assert(r@ =~= spec_format_path(segments_view(segments@.take(i + 1))));
        i += 1;
    }
    r
}

/// `{parent}/{name}[{index}]`.
pub open spec fn spec_child_path(parent: Seq<char>, name: Seq<char>, index: nat) -> Seq<char> {
    parent + seq!['/'] + name + seq!['['] + spec_decimal(index) + seq![']']
}

/// Formats `{parent}/{name}[{index}]`.
pub fn child_path(parent: &str, name: &str, index: usize) -> (r: String)
    ensures
        r@ == spec_child_path(parent@, name@, index as nat),
{
    let mut r = parent.to_owned();
    push_char(&mut r, '/');
    r.append(name);
    push_char(&mut r, '[');
    push_decimal(&mut r, index);
    push_char(&mut r, ']');
    r
}

} // verus!
