//! Vault paths as text: names separated by `/`.
//!
//! A path is read as whether it starts with `/` and the sequence of its names, the parts
//! between `/` that are neither empty nor `.`.
use vstd::prelude::*;

use crate::text::chars_of;

verus! {

broadcast use vstd::seq_lib::group_seq_lib_default;

/// The parts of `p` between `/` separators, empty ones included.
pub open spec fn split_slash(p: Seq<char>) -> Seq<Seq<char>>
    decreases p.len(),
{
    if p.len() == 0 {
        seq![Seq::<char>::empty()]
    } else {
        let rest = split_slash(p.drop_last());
        if p.last() == '/' {
            rest.push(Seq::<char>::empty())
        } else {
            rest.update(rest.len() - 1, rest.last().push(p.last()))
        }
    }
}

/// A part of a path that names something: neither empty nor `.`.
pub open spec fn is_name(part: Seq<char>) -> bool {
    part.len() > 0 && part != seq!['.']
}

/// The names of a path.
pub open spec fn path_names(p: Seq<char>) -> Seq<Seq<char>> {
    split_slash(p).filter(|part: Seq<char>| is_name(part))
}

/// The path starts with `/`.
pub open spec fn is_absolute(p: Seq<char>) -> bool {
    p.len() > 0 && p[0] == '/'
}

/// Names written with `/` between them.
pub open spec fn join_names(names: Seq<Seq<char>>) -> Seq<char>
    decreases names.len(),
{
    if names.len() == 0 {
        Seq::empty()
    } else if names.len() == 1 {
        names[0]
    } else {
        join_names(names.drop_last()) + seq!['/'] + names.last()
    }
}

pub fn is_name_exec(part: &Vec<char>) -> (r: bool)
    ensures
        r == is_name(part@),
{
    if part.len() == 0 {
        return false;
    }
    if part.len() == 1 && part[0] == '.' {
        assert(part@ =~= seq!['.']);
        return false;
    }
    assert(part@.len() != 1 ==> part@ != seq!['.']);
    assert(part@.len() == 1 ==> part@[0] != seq!['.'][0]);
    true
}

/// The names of the path `p`.
pub fn names_of(p: &Vec<char>) -> (names: Vec<Vec<char>>)
    ensures
        names@.map_values(|n: Vec<char>| n@) == path_names(p@),
{
    let mut names: Vec<Vec<char>> = Vec::new();
    let mut current: Vec<char> = Vec::new();
    let ghost pred = |part: Seq<char>| is_name(part);
    for i in 0..p.len()
        invariant
            pred == (|part: Seq<char>| is_name(part)),
            split_slash(p@.take(i as int)).len() >= 1,
            current@ == split_slash(p@.take(i as int)).last(),
            names@.map_values(|n: Vec<char>| n@) == split_slash(p@.take(i as int)).drop_last().filter(
                pred,
            ),
    {
        let ghost pieces = split_slash(p@.take(i as int));
        assert(p@.take(i + 1).drop_last() =~= p@.take(i as int));
        let c = p[i];
        if c == '/' {
            let keep = is_name_exec(&current);
            let ghost old_names = names@.map_values(|n: Vec<char>| n@);
            let finished = current;
            if keep {
                names.push(finished);
                assert(names@.map_values(|n: Vec<char>| n@) =~= old_names.push(pieces.last()));
            }
            current = Vec::new();
            proof {
                let next = split_slash(p@.take(i + 1));
                assert(next == pieces.push(Seq::<char>::empty()));
                assert(next.drop_last() =~= pieces);
                assert(pieces =~= pieces.drop_last().push(pieces.last()));
                pieces.drop_last().lemma_filter_push(pieces.last(), pred);
                assert(current@ =~= next.last());
            }
        } else {
            current.push(c);
            proof {
                let next = split_slash(p@.take(i + 1));
                assert(next == pieces.update(pieces.len() - 1, pieces.last().push(c)));
                assert(next.drop_last() =~= pieces.drop_last());
            }
        }
    }
    proof {
        assert(p@.take(p@.len() as int) =~= p@);
    }
    let ghost pieces = split_slash(p@);
    let ghost old_names = names@.map_values(|n: Vec<char>| n@);
    let keep = is_name_exec(&current);
    let last_piece = current;
    if keep {
        names.push(last_piece);
        assert(names@.map_values(|n: Vec<char>| n@) =~= old_names.push(pieces.last()));
    }
    proof {
        assert(pieces =~= pieces.drop_last().push(pieces.last()));
        pieces.drop_last().lemma_filter_push(pieces.last(), pred);
    }
    names
}

/// The names joined with `/`.
pub fn join(names: &Vec<Vec<char>>) -> (joined: Vec<char>)
    ensures
        joined@ == join_names(names@.map_values(|n: Vec<char>| n@)),
{
    let ghost all = names@.map_values(|n: Vec<char>| n@);
    let mut joined: Vec<char> = Vec::new();
    for i in 0..names.len()
        invariant
            all == names@.map_values(|n: Vec<char>| n@),
            joined@ == join_names(all.take(i as int)),
    {
        assert(all.take(i + 1).drop_last() =~= all.take(i as int));
        if i > 0 {
            joined.push('/');
        }
        let name = &names[i];
        let ghost before = joined@;
        for k in 0..name.len()
            invariant
                joined@ == before + name@.take(k as int),
        {
            joined.push(name[k]);
            assert(joined@ =~= before + name@.take(k + 1));
        }
        assert(name@.take(name@.len() as int) =~= name@);
        proof {
            if i == 0 {
                assert(all.take(1) =~= seq![all[0]]);
                assert(joined@ =~= all.take(1)[0]);
            } else {
                assert(all.take(i + 1).last() == all[i as int]);
            }
        }
    }
    assert(all.take(names@.len() as int) =~= all);
    joined
}

/// The last `.` in `name`, if any.
pub open spec fn last_dot(name: Seq<char>) -> Option<int>
    decreases name.len(),
{
    if name.len() == 0 {
        None
    } else if name.last() == '.' {
        Some(name.len() - 1)
    } else {
        last_dot(name.drop_last())
    }
}

pub proof fn lemma_last_dot(name: Seq<char>)
    ensures
        last_dot(name) matches Some(d) ==> 0 <= d < name.len() && name[d] == '.' && forall|j: int|
            d < j < name.len() ==> name[j] != '.',
        last_dot(name) is None ==> forall|j: int| 0 <= j < name.len() ==> name[j] != '.',
    decreases name.len(),
{
    if name.len() > 0 && name.last() != '.' {
        lemma_last_dot(name.drop_last());
        assert forall|j: int| 0 <= j < name.len() - 1 implies name.drop_last()[j] == name[j] by {}
    }
}

/// The stem of a file name (`Path::file_stem`): the part before the last `.`, unless that
/// part is empty or there is no `.`, in which case the whole name.
pub open spec fn name_stem(name: Seq<char>) -> Seq<char> {
    if name == seq!['.', '.'] {
        name
    } else {
        match last_dot(name) {
            Some(d) => if d == 0 {
                name
            } else {
                name.take(d)
            },
            None => name,
        }
    }
}

/// The extension of a file name (`Path::extension`): the part after the last `.`, when the
/// part before it is not empty.
pub open spec fn name_extension(name: Seq<char>) -> Option<Seq<char>> {
    if name == seq!['.', '.'] {
        None
    } else {
        match last_dot(name) {
            Some(d) => if d == 0 {
                None
            } else {
                Some(name.skip(d + 1))
            },
            None => None,
        }
    }
}

/// The file name of a path with the given names (`Path::file_name`): its last name,
/// unless that is `..`.
pub open spec fn file_name(names: Seq<Seq<char>>) -> Option<Seq<char>> {
    if names.len() == 0 || names.last() == seq!['.', '.'] {
        None
    } else {
        Some(names.last())
    }
}

/// Where the last `.` of `name` is.
pub fn find_last_dot(name: &Vec<char>) -> (dot: Option<usize>)
    ensures
        dot matches Some(d) ==> last_dot(name@) == Some(d as int),
        dot is None ==> last_dot(name@) is None,
{
    let mut j: usize = name.len();
    assert(name@.take(name@.len() as int) =~= name@);
    while j > 0
        invariant
            j <= name.len(),
            last_dot(name@.take(j as int)) == last_dot(name@),
        decreases j,
    {
        if name[j - 1] == '.' {
            assert(name@.take(j as int).last() == '.');
            return Some(j - 1);
        }
        assert(name@.take(j as int).drop_last() =~= name@.take(j - 1));
        j -= 1;
    }
    proof {
        assert(name@.take(0) =~= Seq::<char>::empty());
        assert(name@.take(name@.len() as int) =~= name@);
    }
    None
}

pub fn is_parent_name(name: &Vec<char>) -> (r: bool)
    ensures
        r == (name@ == seq!['.', '.']),
{
    if name.len() == 2 && name[0] == '.' && name[1] == '.' {
        assert(name@ =~= seq!['.', '.']);
        true
    } else {
        assert(name@.len() == 2 ==> name@[0] != seq!['.', '.'][0] || name@[1] != seq![
            '.',
            '.',
        ][1]);
        false
    }
}

/// The stem of a file name.
pub fn stem_of(name: &Vec<char>) -> (stem: Vec<char>)
    ensures
        stem@ == name_stem(name@),
{
    proof {
        lemma_last_dot(name@);
    }
    if is_parent_name(name) {
        return copy_chars(name);
    }
    match find_last_dot(name) {
        Some(d) => {
            if d == 0 {
                assert(last_dot(name@) == Some(0int));
                assert(name_stem(name@) == name@);
                copy_chars(name)
            } else {
                let mut stem: Vec<char> = Vec::new();
                for k in 0..d
                    invariant
                        d < name.len(),
                        stem@ == name@.take(k as int),
                {
                    stem.push(name[k]);
                    assert(stem@ =~= name@.take(k + 1));
                }
                assert(last_dot(name@) == Some(d as int));
                assert(name_stem(name@) == name@.take(d as int));
                stem
            }
        },
        None => {
            assert(last_dot(name@) is None);
            assert(name_stem(name@) == name@);
            copy_chars(name)
        },
    }
}

/// A copy of `v`.
pub fn copy_chars(v: &Vec<char>) -> (copy: Vec<char>)
    ensures
        copy@ == v@,
{
    let mut copy: Vec<char> = Vec::new();
    for k in 0..v.len()
        invariant
            copy@ == v@.take(k as int),
    {
        copy.push(v[k]);
        assert(copy@ =~= v@.take(k + 1));
    }
    assert(v@.take(v@.len() as int) =~= v@);
    copy
}

/// Whether a file name has an extension.
pub fn has_extension(name: &Vec<char>) -> (r: bool)
    ensures
        r == name_extension(name@) is Some,
{
    proof {
        lemma_last_dot(name@);
    }
    if is_parent_name(name) {
        return false;
    }
    match find_last_dot(name) {
        Some(d) => d != 0,
        None => false,
    }
}


/// The views of a vector of character vectors.
pub open spec fn views(v: Seq<Vec<char>>) -> Seq<Seq<char>> {
    v.map_values(|n: Vec<char>| n@)
}

pub proof fn lemma_views_push(s: Seq<Vec<char>>, x: Vec<char>)
    ensures
        views(s.push(x)) == views(s).push(x@),
{
    assert(views(s.push(x)) =~= views(s).push(x@));
}

pub proof fn lemma_views_take(s: Seq<Vec<char>>, i: int)
    requires
        0 <= i < s.len(),
    ensures
        views(s.take(i + 1)) == views(s.take(i)).push(s[i]@),
        views(s).take(i + 1) == views(s).take(i).push(s[i]@),
{
    assert(views(s.take(i + 1)) =~= views(s.take(i)).push(s[i]@));
    assert(views(s).take(i + 1) =~= views(s).take(i).push(s[i]@));
}

/// `Path::file_name` as an executable check.
pub fn file_name_exec(names: &Vec<Vec<char>>) -> (name: Option<&Vec<char>>)
    ensures
        name matches Some(n) ==> file_name(views(names@)) == Some(n@),
        name is None ==> file_name(views(names@)) is None,
{
    if names.len() == 0 {
        return None;
    }
    let last = &names[names.len() - 1];
    assert(views(names@).last() == last@);
    if is_parent_name(last) {
        None
    } else {
        Some(last)
    }
}

/// Resolves `..` in relative names (`normalize_relative` of the resolver): `None` when a
/// `..` would climb above the start.
pub open spec fn normalize_names(names: Seq<Seq<char>>) -> Option<Seq<Seq<char>>>
    decreases names.len(),
{
    if names.len() == 0 {
        Some(Seq::empty())
    } else {
        match normalize_names(names.drop_last()) {
            None => None,
            Some(acc) => if names.last() == seq!['.', '.'] {
                if acc.len() == 0 {
                    None
                } else {
                    Some(acc.drop_last())
                }
            } else {
                Some(acc.push(names.last()))
            },
        }
    }
}

/// Resolves `..` in relative names.
pub fn normalize(names: &Vec<Vec<char>>) -> (normalized: Option<Vec<Vec<char>>>)
    ensures
        normalized matches Some(n) ==> normalize_names(views(names@)) == Some(views(n@)),
        normalized is None ==> normalize_names(views(names@)) is None,
{
    let ghost all = views(names@);
    let mut acc: Vec<Vec<char>> = Vec::new();
    for i in 0..names.len()
        invariant
            all == views(names@),
            normalize_names(all.take(i as int)) == Some(views(acc@)),
    {
        assert(all.take(i + 1).drop_last() =~= all.take(i as int));
        assert(all.take(i + 1).last() == names@[i as int]@);
        let ghost before = views(acc@);
        if is_parent_name(&names[i]) {
            if acc.len() == 0 {
                proof {
                    lemma_normalize_none_extends(all, i + 1);
                }
                return None;
            }
            acc.pop();
            assert(views(acc@) =~= before.drop_last());
        } else {
            acc.push(copy_chars(&names[i]));
            assert(views(acc@) =~= before.push(names@[i as int]@));
        }
    }
    assert(all.take(names@.len() as int) =~= all);
    Some(acc)
}

proof fn lemma_normalize_none_extends(names: Seq<Seq<char>>, k: int)
    requires
        0 <= k <= names.len(),
        normalize_names(names.take(k)) is None,
    ensures
        normalize_names(names) is None,
    decreases names.len() - k,
{
    if k < names.len() {
        assert(names.take(k + 1).drop_last() =~= names.take(k));
        lemma_normalize_none_extends(names, k + 1);
    } else {
        assert(names.take(k) =~= names);
    }
}

/// The identity text of a note at `rel`: its normalized names joined with `/`, or `rel`
/// itself when it is absolute or climbs above the vault.
pub open spec fn note_id_text(rel: Seq<char>) -> Seq<char> {
    if is_absolute(rel) {
        rel
    } else {
        match normalize_names(path_names(rel)) {
            Some(n) => join_names(n),
            None => rel,
        }
    }
}

/// The path starts with a `.` name of its own: `.` alone or followed by `/`.
pub open spec fn leads_with_cur_dir(p: Seq<char>) -> bool {
    p.len() > 0 && p[0] == '.' && (p.len() == 1 || p[1] == '/')
}

/// Two paths name the same place as `Path` compares them, name by name: both start at the
/// root or neither does, both start with a `.` name or neither does, and their names agree,
/// so that repeated separators, later `.` names and a trailing separator do not count.
pub open spec fn same_path(a: Seq<char>, b: Seq<char>) -> bool {
    &&& is_absolute(a) == is_absolute(b)
    &&& leads_with_cur_dir(a) == leads_with_cur_dir(b)
    &&& path_names(a) == path_names(b)
}

fn leads_with_cur_dir_exec(p: &Vec<char>) -> (r: bool)
    ensures
        r == leads_with_cur_dir(p@),
{
    p.len() > 0 && p[0] == '.' && (p.len() == 1 || p[1] == '/')
}

/// Whether two paths name the same place (see [`same_path`]).
pub fn same_path_exec(a: &str, b: &str) -> (r: bool)
    ensures
        r == same_path(a@, b@),
{
    let ac = chars_of(a);
    let bc = chars_of(b);
    if is_absolute_exec(&ac) != is_absolute_exec(&bc) || leads_with_cur_dir_exec(&ac) != leads_with_cur_dir_exec(&bc) {
        return false;
    }
    let an = names_of(&ac);
    let bn = names_of(&bc);
    assert(views(an@) == path_names(a@));
    assert(views(bn@) == path_names(b@));
    if an.len() != bn.len() {
        assert(views(an@).len() != views(bn@).len());
        return false;
    }
    for i in 0..an.len()
        invariant
            an.len() == bn.len(),
            views(an@) == path_names(a@),
            views(bn@) == path_names(b@),
            forall|k: int| 0 <= k < i ==> views(an@)[k] == views(bn@)[k],
    {
        if !crate::text::same_chars(&an[i], &bn[i]) {
            assert(views(an@)[i as int] != views(bn@)[i as int]);
            return false;
        }
    }
    assert(views(an@) =~= views(bn@));
    true
}

pub fn is_absolute_exec(p: &Vec<char>) -> (r: bool)
    ensures
        r == is_absolute(p@),
{
    p.len() > 0 && p[0] == '/'
}

/// The identity text of the note at `rel`.
pub fn note_id_chars(rel: &Vec<char>) -> (id: Vec<char>)
    ensures
        id@ == note_id_text(rel@),
{
    if is_absolute_exec(rel) {
        return copy_chars(rel);
    }
    let names = names_of(rel);
    match normalize(&names) {
        Some(n) => join(&n),
        None => copy_chars(rel),
    }
}

/// `t` from its first name on: without the separators and `.` names in front of it.
pub open spec fn trim_front(t: Seq<char>) -> Seq<char>
    decreases t.len(),
{
    if t.len() > 0 && (t[0] == '/' || (t[0] == '.' && (t.len() == 1 || t[1] == '/'))) {
        trim_front(t.skip(1))
    } else {
        t
    }
}

/// `t` up to its last name: without the separators and `.` names after it.
pub open spec fn trim_back(t: Seq<char>) -> Seq<char>
    decreases t.len(),
{
    if t.len() > 0 && (t.last() == '/' || (t.last() == '.' && (t.len() == 1 || t[t.len() - 2] == '/'))) {
        trim_back(t.drop_last())
    } else {
        t
    }
}

/// The length of the first name of `t`: the characters before its first `/`.
pub open spec fn name_end(t: Seq<char>) -> int
    decreases t.len(),
{
    if t.len() == 0 || t[0] == '/' {
        0
    } else {
        1 + name_end(t.skip(1))
    }
}

/// `t` without its first `k` names, from the name after them on.
pub open spec fn skip_names(t: Seq<char>, k: nat) -> Seq<char>
    decreases k,
{
    let u = trim_front(t);
    if k == 0 {
        u
    } else {
        skip_names(u.skip(name_end(u)), (k - 1) as nat)
    }
}

/// The length of the part of `p` before its names: its root `/` or its leading `.` name.
pub open spec fn lead_len(p: Seq<char>) -> int {
    if is_absolute(p) || leads_with_cur_dir(p) {
        1
    } else {
        0
    }
}

/// The path has a root, a leading `.` name or a name.
pub open spec fn has_components(p: Seq<char>) -> bool {
    is_absolute(p) || leads_with_cur_dir(p) || path_names(p).len() > 0
}

/// `path` relative to `root` (`Path::strip_prefix`, then the path left): when `root` has
/// nothing to match, `path` without the separators and `.` names at its end; when `root`'s
/// names come first in `path`, both are absolute or both relative, and both start with a `.`
/// name or neither does, the text of `path` from the name after `root`'s to its last name,
/// as written; otherwise `path` unchanged.
pub open spec fn relative_to(root: Seq<char>, path: Seq<char>) -> Seq<char> {
    let r = path_names(root);
    let p = path_names(path);
    if !has_components(root) {
        path.take(lead_len(path)) + trim_back(path.skip(lead_len(path)))
    } else if is_absolute(root) == is_absolute(path) && leads_with_cur_dir(root) == leads_with_cur_dir(path) && r.len()
        <= p.len() && p.take(r.len() as int) == r {
        trim_back(skip_names(path.skip(lead_len(path)), r.len()))
    } else {
        path
    }
}

proof fn lemma_trim_front_twice(t: Seq<char>)
    ensures
        trim_front(trim_front(t)) == trim_front(t),
    decreases t.len(),
{
    if t.len() > 0 && (t[0] == '/' || (t[0] == '.' && (t.len() == 1 || t[1] == '/'))) {
        lemma_trim_front_twice(t.skip(1));
    }
}

/// Where the text of `t` from `start` on starts once trimmed in front.
fn trim_front_from(t: &Vec<char>, start: usize) -> (i: usize)
    requires
        start <= t.len(),
    ensures
        start <= i <= t.len(),
        t@.subrange(i as int, t.len() as int) == trim_front(t@.subrange(start as int, t.len() as int)),
{
    let mut i = start;
    while i < t.len() && (t[i] == '/' || (t[i] == '.' && (i + 1 == t.len() || t[i + 1] == '/')))
        invariant
            start <= i <= t.len(),
            trim_front(t@.subrange(start as int, t.len() as int)) == trim_front(t@.subrange(i as int, t.len() as int)),
        decreases t.len() - i,
    {
        let ghost u = t@.subrange(i as int, t.len() as int);
        assert(u[0] == t@[i as int]);
        assert(i + 1 < t.len() ==> u[1] == t@[i + 1]);
        assert(u.skip(1) =~= t@.subrange(i + 1, t.len() as int));
        i += 1;
    }
    let ghost u = t@.subrange(i as int, t.len() as int);
    assert(i < t.len() ==> u[0] == t@[i as int]);
    assert(i + 1 < t.len() ==> u[1] == t@[i + 1]);
    i
}

/// Where the text of `t` from `start` to `end` ends once trimmed at the back.
fn trim_back_to(t: &Vec<char>, start: usize, end: usize) -> (j: usize)
    requires
        start <= end <= t.len(),
    ensures
        start <= j <= end,
        t@.subrange(start as int, j as int) == trim_back(t@.subrange(start as int, end as int)),
{
    let mut j = end;
    while j > start && (t[j - 1] == '/' || (t[j - 1] == '.' && (j - 1 == start || t[j - 2] == '/')))
        invariant
            start <= j <= end <= t.len(),
            trim_back(t@.subrange(start as int, end as int)) == trim_back(t@.subrange(start as int, j as int)),
        decreases j - start,
    {
        let ghost u = t@.subrange(start as int, j as int);
        assert(u.last() == t@[j - 1]);
        assert(j - 1 > start ==> u[u.len() - 2] == t@[j - 2]);
        assert(u.drop_last() =~= t@.subrange(start as int, j - 1));
        j -= 1;
    }
    let ghost u = t@.subrange(start as int, j as int);
    assert(j > start ==> u.last() == t@[j - 1]);
    assert(j - 1 > start ==> u[u.len() - 2] == t@[j - 2]);
    j
}

/// Where the first name of the text of `t` from `start` on ends.
fn name_end_from(t: &Vec<char>, start: usize) -> (e: usize)
    requires
        start <= t.len(),
    ensures
        start <= e <= t.len(),
        e - start == name_end(t@.subrange(start as int, t.len() as int)),
{
    let mut e = start;
    while e < t.len() && t[e] != '/'
        invariant
            start <= e <= t.len(),
            name_end(t@.subrange(start as int, t.len() as int)) == (e - start) + name_end(
                t@.subrange(e as int, t.len() as int),
            ),
        decreases t.len() - e,
    {
        let ghost u = t@.subrange(e as int, t.len() as int);
        assert(u[0] == t@[e as int]);
        assert(u.skip(1) =~= t@.subrange(e + 1, t.len() as int));
        e += 1;
    }
    let ghost u = t@.subrange(e as int, t.len() as int);
    assert(e < t.len() ==> u[0] == t@[e as int]);
    e
}

/// Where the text of `t` from `start` on continues after its first `k` names.
fn skip_names_from(t: &Vec<char>, start: usize, k: usize) -> (i: usize)
    requires
        start <= t.len(),
    ensures
        start <= i <= t.len(),
        t@.subrange(i as int, t.len() as int) == skip_names(t@.subrange(start as int, t.len() as int), k as nat),
{
    let mut i = trim_front_from(t, start);
    proof {
        lemma_trim_front_twice(t@.subrange(start as int, t.len() as int));
    }
    let mut m = k;
    while m > 0
        invariant
            start <= i <= t.len(),
            m <= k,
            skip_names(t@.subrange(start as int, t.len() as int), k as nat) == skip_names(
                t@.subrange(i as int, t.len() as int),
                m as nat,
            ),
            trim_front(t@.subrange(i as int, t.len() as int)) == t@.subrange(i as int, t.len() as int),
        decreases m,
    {
        let ghost u = t@.subrange(i as int, t.len() as int);
        let e = name_end_from(t, i);
        assert(u.skip(name_end(u)) =~= t@.subrange(e as int, t.len() as int));
        let next = trim_front_from(t, e);
        proof {
            lemma_trim_front_twice(t@.subrange(e as int, t.len() as int));
            lemma_trim_front_twice(t@.subrange(next as int, t.len() as int));
            let w = t@.subrange(e as int, t.len() as int);
            assert(skip_names(w, (m - 1) as nat) == skip_names(t@.subrange(next as int, t.len() as int), (m - 1) as nat));
        }
        i = next;
        m -= 1;
    }
    i
}

/// `path` relative to `root`.
pub fn relative_path_of(root: &Vec<char>, path: &Vec<char>) -> (rel: Vec<char>)
    ensures
        rel@ == relative_to(root@, path@),
{
    let r = names_of(root);
    let p = names_of(path);
    let ghost rv = views(r@);
    let ghost pv = views(p@);
    assert(rv == r@.map_values(|n: Vec<char>| n@));
    assert(pv == p@.map_values(|n: Vec<char>| n@));
    let lead: usize = if is_absolute_exec(path) || leads_with_cur_dir_exec(path) {
        1
    } else {
        0
    };
    assert(lead == lead_len(path@));
    assert(path@.skip(lead as int) =~= path@.subrange(lead as int, path@.len() as int));
    if !(is_absolute_exec(root) || leads_with_cur_dir_exec(root) || r.len() > 0) {
        let j = trim_back_to(path, lead, path.len());
        let rel = crate::text::copy_span(path, 0, j);
        assert(rel@ =~= path@.take(lead as int) + path@.subrange(lead as int, j as int));
        return rel;
    }
    if is_absolute_exec(root) != is_absolute_exec(path) || leads_with_cur_dir_exec(root) != leads_with_cur_dir_exec(
        path,
    ) || r.len() > p.len() {
        return copy_chars(path);
    }
    let mut i: usize = 0;
    while i < r.len()
        invariant
            rv == views(r@),
            pv == views(p@),
            rv == path_names(root@),
            pv == path_names(path@),
            is_absolute(root@) == is_absolute(path@),
            leads_with_cur_dir(root@) == leads_with_cur_dir(path@),
            r.len() <= p.len(),
            i <= r.len(),
            forall|k: int| 0 <= k < i ==> rv[k] == pv[k],
        decreases r.len() - i,
    {
        if !crate::text::same_chars(&r[i], &p[i]) {
            assert(pv.take(rv.len() as int)[i as int] != rv[i as int]);
            return copy_chars(path);
        }
        i += 1;
    }
    assert(pv.take(rv.len() as int) =~= rv);
    let start = skip_names_from(path, lead, r.len());
    let end = trim_back_to(path, start, path.len());
    crate::text::copy_span(path, start, end)
}

} // verus!
