use crate::errors::UnpackError;
use vstd::prelude::*;

verus! {

/// `/`, the separator of the container format.
pub const SLASH: u8 = 47;

/// `\`, the separator Windows-written names may hold.
pub const BACKSLASH: u8 = 92;

/// `.`
pub const DOT: u8 = 46;

/// `:`, the drive-prefix marker.
pub const COLON: u8 = 58;

/// The separator bytes at which a stored name splits.
pub open spec fn is_sep(b: u8) -> bool {
    b == SLASH || b == BACKSLASH
}

/// A split-off component survives sanitization only if it is no traversal
/// or root marker: nonempty, not `.`, not `..`, and free of drive-prefix
/// colons. Empty components also cover absolute-path roots, which split
/// into an empty first component.
pub open spec fn keep_component(c: Seq<u8>) -> bool {
    &&& c.len() > 0
    &&& c != seq![DOT]
    &&& c != seq![DOT, DOT]
    &&& !c.contains(COLON)
}

/// `keep_component` as a first-class predicate, for filtering.
pub open spec fn keep_pred() -> spec_fn(Seq<u8>) -> bool {
    |c: Seq<u8>| keep_component(c)
}

/// A stored name split at its separators: one component per stretch
/// between separators, empty stretches included.
pub open spec fn components_of(s: Seq<u8>) -> Seq<Seq<u8>>
    decreases s.len(),
{
    if s.len() == 0 {
        seq![Seq::<u8>::empty()]
    } else if is_sep(s.last()) {
        components_of(s.drop_last()).push(Seq::<u8>::empty())
    } else {
        let cs = components_of(s.drop_last());
        cs.update(cs.len() - 1, cs.last().push(s.last()))
    }
}

/// A stored name sanitized: its components with every traversal segment,
/// absolute-path root and drive prefix dropped.
pub open spec fn sanitize_spec(s: Seq<u8>) -> Seq<Seq<u8>> {
    components_of(s).filter(keep_pred())
}

/// Whether `b` is a separator byte.
fn is_sep_byte(b: u8) -> (r: bool)
    ensures
        r == is_sep(b),
{
    b == SLASH || b == BACKSLASH
}

/// Whether a split-off component survives sanitization.
fn keep(c: &Vec<u8>) -> (r: bool)
    ensures
        r == keep_component(c@),
{
    if c.len() == 0 {
        return false;
    }
    if c.len() == 1 && c[0] == DOT {
        proof {
            assert(c@ =~= seq![DOT]);
        }
        return false;
    }
    if c.len() == 2 && c[0] == DOT && c[1] == DOT {
        proof {
            assert(c@ =~= seq![DOT, DOT]);
        }
        return false;
    }
    let mut i: usize = 0;
    while i < c.len()
        invariant
            0 <= i <= c@.len(),
            forall|k: int| 0 <= k < i ==> c@[k] != COLON,
        decreases c@.len() - i,
    {
        if c[i] == COLON {
            return false;
        }
        i += 1;
    }
    proof {
        if c@ == seq![DOT] {
            assert(c@.len() == 1 && c@[0] == DOT);
        }
        if c@ == seq![DOT, DOT] {
            assert(c@.len() == 2 && c@[0] == DOT && c@[1] == DOT);
        }
    }
    true
}

/// An untrusted stored name split at separators with every unsafe
/// component dropped: traversal segments, `.`, empties (which absolute
/// roots produce) and drive-prefixed pieces never survive.
pub fn sanitize_name(name: &[u8]) -> (r: Vec<Vec<u8>>)
    ensures
        r@.len() == sanitize_spec(name@).len(),
        forall|j: int| 0 <= j < r@.len() ==> (#[trigger] r@[j])@ == sanitize_spec(name@)[j],
{
    let mut out: Vec<Vec<u8>> = Vec::new();
    let mut cur: Vec<u8> = Vec::new();
    let mut i: usize = 0;
    proof {
        assert(name@.take(0) =~= Seq::<u8>::empty());
    }
    while i < name.len()
        invariant
            0 <= i <= name@.len(),
            components_of(name@.take(i as int)).len() >= 1,
            cur@ == components_of(name@.take(i as int)).last(),
            out@.len() == components_of(name@.take(i as int)).drop_last().filter(
                keep_pred(),
            ).len(),
            forall|j: int|
                0 <= j < out@.len() ==> (#[trigger] out@[j])@ == components_of(
                    name@.take(i as int),
                ).drop_last().filter(keep_pred())[j],
        decreases name@.len() - i,
    {
        let ghost pre = components_of(name@.take(i as int));
        proof {
            assert(name@.take(i + 1).drop_last() =~= name@.take(i as int));
            assert(name@.take(i + 1).last() == name@[i as int]);
        }
        let ghost post = components_of(name@.take(i + 1));
        let b = name[i];
        if is_sep_byte(b) {
            proof {
                assert(post == pre.push(Seq::<u8>::empty()));
                assert(post.drop_last() =~= pre);
                reveal(Seq::filter);
                assert(pre.drop_last().push(pre.last()) =~= pre);
                assert(keep_pred()(pre.last()) == keep_component(pre.last()));
                assert(pre.filter(keep_pred()) == if keep_component(pre.last()) {
                    pre.drop_last().filter(keep_pred()).push(pre.last())
                } else {
                    pre.drop_last().filter(keep_pred())
                });
            }
            if keep(&cur) {
                out.push(cur);
            }
            cur = Vec::new();
        } else {
            proof {
                assert(post == pre.update(pre.len() - 1, pre.last().push(name@[i as int])));
                assert(post.drop_last() =~= pre.drop_last());
                assert(post.last() == pre.last().push(name@[i as int]));
            }
            cur.push(b);
        }
        i += 1;
    }
    let ghost whole = components_of(name@);
    proof {
        assert(name@.take(name@.len() as int) =~= name@);
        reveal(Seq::filter);
        assert(whole.drop_last().push(whole.last()) =~= whole);
        assert(keep_pred()(whole.last()) == keep_component(whole.last()));
        assert(whole.filter(keep_pred()) == if keep_component(whole.last()) {
            whole.drop_last().filter(keep_pred()).push(whole.last())
        } else {
            whole.drop_last().filter(keep_pred())
        });
    }
    if keep(&cur) {
        out.push(cur);
    }
    out
}

/// Sanitization never lets a name escape: every surviving component is
/// nonempty and is neither `.` nor `..` nor drive-prefixed, so a path
/// joined from them under a root directory resolves strictly inside that
/// root.
pub proof fn lemma_sanitized_name_stays_inside(s: Seq<u8>)
    ensures
        forall|j: int|
            0 <= j < sanitize_spec(s).len() ==> keep_component(#[trigger] sanitize_spec(s)[j]),
{
    assert forall|j: int|
        0 <= j < sanitize_spec(s).len() implies keep_component(sanitize_spec(s)[j]) by {
        components_of(s).lemma_filter_pred(keep_pred(), j);
    }
}

/// Where the file name of `s` begins: just past its last separator.
pub open spec fn file_name_start(s: Seq<u8>) -> int
    decreases s.len(),
{
    if s.len() == 0 {
        0
    } else if is_sep(s.last()) {
        s.len() as int
    } else {
        file_name_start(s.drop_last())
    }
}

/// The position of the last `.` inside the file name of `s`, if any.
pub open spec fn last_dot(s: Seq<u8>) -> Option<int>
    decreases s.len(),
{
    if s.len() == 0 {
        None
    } else if is_sep(s.last()) {
        None
    } else if s.last() == DOT {
        Some(s.len() - 1)
    } else {
        last_dot(s.drop_last())
    }
}

/// A destination root can be derived from `s` exactly when its file name
/// has an extension behind a nonempty stem.
pub open spec fn has_unpack_folder(s: Seq<u8>) -> bool {
    last_dot(s) matches Some(j) && j > file_name_start(s)
}

/// The destination root: the source path cut at the final `.` of its file
/// name, which makes the root a sibling of the source file.
pub open spec fn unpack_folder_spec(s: Seq<u8>) -> Seq<u8> {
    match last_dot(s) {
        Some(j) => s.take(j),
        None => s,
    }
}

/// The destination-root path for a source file: the path with the file
/// name's final extension cut off. Fails with `NoStem` when no such name
/// can be derived: a file name without an extension, or one that is only
/// an extension.
pub fn unpack_folder_path(source_path: &[u8]) -> (r: Result<Vec<u8>, UnpackError>)
    ensures
        r is Ok <==> has_unpack_folder(source_path@),
        r matches Ok(p) ==> p@ == unpack_folder_spec(source_path@),
        r matches Err(e) ==> e == UnpackError::NoStem,
{
    let mut sep_end: usize = 0;
    let mut dot: Option<usize> = None;
    let mut i: usize = 0;
    proof {
        assert(source_path@.take(0) =~= Seq::<u8>::empty());
    }
    while i < source_path.len()
        invariant
            0 <= i <= source_path@.len(),
            sep_end as int == file_name_start(source_path@.take(i as int)),
            sep_end <= i,
            match dot {
                Some(d) => last_dot(source_path@.take(i as int)) == Some(d as int) && d < i,
                None => last_dot(source_path@.take(i as int)) is None,
            },
        decreases source_path@.len() - i,
    {
        proof {
            assert(source_path@.take(i + 1).drop_last() =~= source_path@.take(i as int));
            assert(source_path@.take(i + 1).last() == source_path@[i as int]);
        }
        let b = source_path[i];
        if is_sep_byte(b) {
            sep_end = i + 1;
            dot = None;
        } else if b == DOT {
            dot = Some(i);
        }
        i += 1;
    }
    proof {
        assert(source_path@.take(source_path@.len() as int) =~= source_path@);
    }
    match dot {
        Some(d) => {
            if d > sep_end {
                let mut out: Vec<u8> = Vec::new();
                let mut k: usize = 0;
                while k < d
                    invariant
                        0 <= k <= d,
                        d < source_path@.len(),
                        out@ == source_path@.take(d as int).take(k as int),
                    decreases d - k,
                {
                    proof {
                        assert(source_path@.take(d as int).take(k + 1) =~= source_path@.take(
                            d as int,
                        ).take(k as int).push(source_path@[k as int]));
                    }
                    out.push(source_path[k]);
                    k += 1;
                }
                proof {
                    assert(source_path@.take(d as int).take(d as int) =~= source_path@.take(
                        d as int,
                    ));
                }
                Ok(out)
            } else {
                Err(UnpackError::NoStem)
            }
        },
        None => Err(UnpackError::NoStem),
    }
}

} // verus!
