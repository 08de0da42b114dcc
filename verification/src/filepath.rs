//! File names of `/`-separated paths: the final component, its stem and its
//! extension, with the meaning std's `Path` gives them on Unix.
use vstd::prelude::*;
use crate::text::{chars_of, string_from_chars, push_char, string_of};

verus! {

/// The position of the last `/` in `p`, if any.
pub open spec fn last_slash(p: Seq<char>) -> Option<int>
    decreases p.len(),
{
    if p.len() == 0 {
        None
    } else if p.last() == '/' {
        Some(p.len() - 1)
    } else {
        last_slash(p.drop_last())
    }
}

/// The last component of a `/`-separated path, skipping empty and `.`
/// components; `None` when there is none or it is `..`.
pub open spec fn file_name(p: Seq<char>) -> Option<Seq<char>>
    decreases p.len(),
{
    let start = match last_slash(p) {
        Some(k) => k + 1,
        None => 0,
    };
    let seg = p.subrange(start, p.len() as int);
    if seg.len() == 0 || seg == seq!['.'] {
        match last_slash(p) {
            Some(k) => {
                proof {
                    lemma_last_slash_bounds(p);
                }
                file_name(p.take(k))
            },
            None => None,
        }
    } else if seg == seq!['.', '.'] {
        None
    } else {
        Some(seg)
    }
}

/// The position of the last `.` in `name`, if any.
pub open spec fn last_dot(name: Seq<char>) -> Option<int>
    decreases name.len(),
{
    if name.len() == 0 {
        None
    } else if name.last() == '.' {
        Some(name.len() - 1)
    } else {
        last_dot(name.drop_last())
    }
}

/// The extension of a file name: the text after its final `.`; none when it
/// has no `.` or its only `.` is its first character.
pub open spec fn extension(name: Seq<char>) -> Option<Seq<char>> {
    match last_dot(name) {
        Some(k) => if k == 0 {
            None
        } else {
            Some(name.skip(k + 1))
        },
        None => None,
    }
}

/// The stem of a file name: the text before its final `.`; the whole name
/// when it has no `.` or its only `.` is its first character.
pub open spec fn file_stem(name: Seq<char>) -> Seq<char> {
    match last_dot(name) {
        Some(k) => if k == 0 {
            name
        } else {
            name.take(k)
        },
        None => name,
    }
}

/// `last_slash` names a `/` with no `/` after it, or there is no `/` at all.
pub proof fn lemma_last_slash_bounds(p: Seq<char>)
    ensures
        last_slash(p) matches Some(k) ==> 0 <= k < p.len() && p[k] == '/' && (forall|j: int|
            k < j < p.len() ==> p[j] != '/'),
        last_slash(p) is None ==> forall|j: int| 0 <= j < p.len() ==> p[j] != '/',
    decreases p.len(),
{
    if p.len() > 0 && p.last() != '/' {
        let q = p.drop_last();
        lemma_last_slash_bounds(q);
        assert forall|j: int| 0 <= j < q.len() implies q[j] == p[j] by {}
        assert(p[p.len() - 1] == p.last());
    }
}

proof fn lemma_last_slash_unique(p: Seq<char>, k: Option<int>)
    requires
        match k {
            Some(k) => 0 <= k < p.len() && p[k] == '/' && forall|j: int| k < j < p.len() ==> p[j] != '/',
            None => forall|j: int| 0 <= j < p.len() ==> p[j] != '/',
        },
    ensures
        last_slash(p) == k,
    decreases p.len(),
{
    if p.len() > 0 {
        if p.last() != '/' {
            match k {
                Some(kk) => {
                    assert(kk != p.len() - 1);
                    lemma_last_slash_unique(p.drop_last(), k);
                },
                None => {
                    lemma_last_slash_unique(p.drop_last(), k);
                },
            }
        }
    }
}

proof fn lemma_last_dot_unique(p: Seq<char>, k: Option<int>)
    requires
        match k {
            Some(k) => 0 <= k < p.len() && p[k] == '.' && forall|j: int| k < j < p.len() ==> p[j] != '.',
            None => forall|j: int| 0 <= j < p.len() ==> p[j] != '.',
        },
    ensures
        last_dot(p) == k,
    decreases p.len(),
{
    if p.len() > 0 {
        if p.last() != '.' {
            match k {
                Some(kk) => {
                    assert(kk != p.len() - 1);
                    lemma_last_dot_unique(p.drop_last(), k);
                },
                None => {
                    lemma_last_dot_unique(p.drop_last(), k);
                },
            }
        }
    }
}

/// The position of the last occurrence of `c` in `v[..end]`.
fn find_last(v: &Vec<char>, end: usize, c: char) -> (r: Option<usize>)
    requires
        end <= v@.len(),
    ensures
        match r {
            Some(k) => k < end && v@[k as int] == c && forall|j: int| k < j < end ==> v@[j] != c,
            None => forall|j: int| 0 <= j < end ==> v@[j] != c,
        },
{
    let mut i: usize = end;
    while i > 0
        invariant
            i <= end <= v@.len(),
            forall|j: int| i <= j < end ==> v@[j] != c,
        decreases i,
    {
        if v[i - 1] == c {
            return Some(i - 1);
        }
        i = i - 1;
    }
    None
}

fn file_name_upto(v: &Vec<char>, end: usize) -> (r: Option<Vec<char>>)
    requires
        end <= v@.len(),
    ensures
        match r {
            Some(s) => file_name(v@.take(end as int)) == Some(s@),
            None => file_name(v@.take(end as int)) is None,
        },
    decreases end,
{
    let p = Ghost(v@.take(end as int));
    let k = find_last(v, end, '/');
    proof {
        lemma_last_slash_unique(
            p@,
            match k {
                Some(k) => Some(k as int),
                None => None,
            },
        );
    }
    let start: usize = match k {
        Some(k) => k + 1,
        None => 0,
    };
    let mut seg: Vec<char> = Vec::new();
    let mut i: usize = start;
    while i < end
        invariant
            start <= i <= end <= v@.len(),
            seg@ == v@.subrange(start as int, i as int),
        decreases end - i,
    {
        seg.push(v[i]);
        proof {
            assert(seg@ =~= v@.subrange(start as int, i + 1));
        }
        i = i + 1;
    }
    proof {
        assert(seg@ =~= p@.subrange(start as int, p@.len() as int));
    }
    let is_dot = seg.len() == 1 && seg[0] == '.';
    let is_dotdot = seg.len() == 2 && seg[0] == '.' && seg[1] == '.';
    proof {
        if is_dot {
            assert(seg@ =~= seq!['.']);
        } else if seg@ == seq!['.'] {
            assert(seg@[0] == '.');
        }
        if is_dotdot {
            assert(seg@ =~= seq!['.', '.']);
        } else if seg@ == seq!['.', '.'] {
            assert(seg@[0] == '.' && seg@[1] == '.');
        }
    }
    if seg.len() == 0 || is_dot {
        match k {
            Some(k) => {
                proof {
                    assert(p@.take(k as int) =~= v@.take(k as int));
                }
                file_name_upto(v, k)
            },
            None => None,
        }
    } else if is_dotdot {
        None
    } else {
        Some(seg)
    }
}

/// The file name of a `/`-separated path (see `file_name`).
pub fn path_file_name(path: &str) -> (r: Option<String>)
    ensures
        match r {
            Some(s) => file_name(path@) == Some(s@),
            None => file_name(path@) is None,
        },
{
    let v = chars_of(path);
    proof {
        assert(v@.take(v@.len() as int) =~= v@);
    }
    match file_name_upto(&v, v.len()) {
        Some(s) => Some(string_from_chars(s.as_slice())),
        None => None,
    }
}

/// The extension of a file name (see `extension`).
pub fn name_extension(name: &str) -> (r: Option<String>)
    ensures
        match r {
            Some(s) => extension(name@) == Some(s@),
            None => extension(name@) is None,
        },
{
    let v = chars_of(name);
    let k = find_last(&v, v.len(), '.');
    proof {
        lemma_last_dot_unique(
            v@,
            match k {
                Some(k) => Some(k as int),
                None => None,
            },
        );
    }
    match k {
        Some(k) => {
            if k == 0 {
                None
            } else {
                let mut s = String::new();
                let mut i: usize = k + 1;
                while i < v.len()
                    invariant
                        k + 1 <= i <= v@.len(),
                        s@ == v@.subrange(k + 1, i as int),
                    decreases v@.len() - i,
                {
                    push_char(&mut s, v[i]);
                    proof {
                        assert(s@ =~= v@.subrange(k + 1, i + 1));
                    }
                    i = i + 1;
                }
                proof {
                    assert(s@ =~= v@.skip(k + 1));
                }
                Some(s)
            }
        },
        None => None,
    }
}

/// The stem of a file name (see `file_stem`).
pub fn name_stem(name: &str) -> (r: String)
    ensures
        r@ == file_stem(name@),
{
    let v = chars_of(name);
    let k = find_last(&v, v.len(), '.');
    proof {
        lemma_last_dot_unique(
            v@,
            match k {
                Some(k) => Some(k as int),
                None => None,
            },
        );
    }
    match k {
        Some(k) => {
            if k == 0 {
                string_of(name)
            } else {
                let mut s = String::new();
                let mut i: usize = 0;
                while i < k
                    invariant
                        i <= k < v@.len(),
                        s@ == v@.take(i as int),
                    decreases k - i,
                {
                    push_char(&mut s, v[i]);
                    proof {
                        assert(s@ =~= v@.take(i + 1));
                    }
                    i = i + 1;
                }
                s
            }
        },
        None => string_of(name),
    }
}

/// `base` joined with the relative path `rel`: a `/` goes between them
/// unless `base` is empty or already ends with one.
pub open spec fn join(base: Seq<char>, rel: Seq<char>) -> Seq<char> {
    if base.len() == 0 || base.last() == '/' {
        base + rel
    } else {
        base + seq!['/'] + rel
    }
}

/// `base` joined with the relative path `rel` (see `join`).
pub fn join_path(base: &str, rel: &str) -> (r: String)
    ensures
        r@ == join(base@, rel@),
{
    let v = chars_of(base);
    let mut s = string_of(base);
    if v.len() > 0 && v[v.len() - 1] != '/' {
        push_char(&mut s, '/');
    }
    s.append(rel);
    proof {
        if v@.len() > 0 {
            assert(v@.last() == v@[v@.len() - 1]);
        }
    }
    s
}

} // verus!
