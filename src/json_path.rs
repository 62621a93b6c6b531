//! Dotted paths into nested documents (`a.0.b`): each segment names an
//! object key, or an array index when it reads as a number.
use vstd::prelude::*;

use crate::chars::{chars_of, string_of};
use crate::time::{parse_u32, parse_u32_chars};

verus! {

/// One step of a path: the segment as a key, and as an index when it
/// reads as one.
pub struct PathStep {
    pub key: String,
    pub index: Option<u32>,
}

/// Segments of `s` split at `.` before the last one, and the last one.
pub open spec fn dot_split(s: Seq<char>) -> (Seq<Seq<char>>, Seq<char>)
    decreases s.len(),
{
    if s.len() == 0 {
        (Seq::empty(), Seq::empty())
    } else {
        let (done, cur) = dot_split(s.drop_last());
        if s.last() == '.' {
            (done.push(cur), Seq::empty())
        } else {
            (done, cur.push(s.last()))
        }
    }
}

/// The segments of `s` split at every `.` (empty ones kept; at least one).
pub open spec fn segments(s: Seq<char>) -> Seq<Seq<char>> {
    dot_split(s).0.push(dot_split(s).1)
}

fn step_of(seg: &Vec<char>) -> (r: PathStep)
    ensures
        r.key@ == seg@,
        r.index == parse_u32(seg@),
{
    let index = parse_u32_chars(seg, 0);
    proof {
        assert(seg@.subrange(0, seg@.len() as int) == seg@);
    }
    PathStep { key: string_of(seg), index }
}

/// The steps of a dotted path, one per segment. An index that does not fit
/// in a `u32` counts as unreadable: no array is that long.
pub fn path_steps(path: &str) -> (r: Vec<PathStep>)
    ensures
        r@.len() == segments(path@).len(),
        forall|i: int|
            0 <= i < r@.len() ==> (#[trigger] r@[i]).key@ == segments(path@)[i] && r@[i].index
                == parse_u32(segments(path@)[i]),
{
    let cs = chars_of(path);
    let mut done: Vec<PathStep> = Vec::new();
    let mut cur: Vec<char> = Vec::new();
    let mut i: usize = 0;
    while i < cs.len()
        invariant
            cs@ == path@,
            i <= cs@.len(),
            dot_split(cs@.subrange(0, i as int)).1 == cur@,
            dot_split(cs@.subrange(0, i as int)).0.len() == done@.len(),
            forall|k: int|
                0 <= k < done@.len() ==> (#[trigger] done@[k]).key@ == dot_split(
                    cs@.subrange(0, i as int),
                ).0[k] && done@[k].index == parse_u32(dot_split(cs@.subrange(0, i as int)).0[k]),
        decreases cs@.len() - i,
    {
        proof {
            assert(cs@.subrange(0, i as int + 1).drop_last() == cs@.subrange(0, i as int));
        }
        let c = cs[i];
        if c == '.' {
            let st = step_of(&cur);
            done.push(st);
            cur = Vec::new();
        } else {
            cur.push(c);
        }
        i = i + 1;
    }
    proof {
        assert(cs@.subrange(0, cs@.len() as int) == cs@);
    }
    let st = step_of(&cur);
    done.push(st);
    done
}

} // verus!
