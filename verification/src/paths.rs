use vstd::prelude::*;
use vstd::seq_lib::lemma_flatten_concat;

verus! {

/// The final component of a path: the characters after the last `/`
/// (the whole path when it holds no `/`), empty when the path ends with `/`.
pub open spec fn final_component(s: Seq<char>) -> Seq<char>
    decreases s.len(),
{
    if s.len() == 0 {
        Seq::<char>::empty()
    } else if s[s.len() - 1] == '/' {
        Seq::<char>::empty()
    } else {
        final_component(s.drop_last()).push(s[s.len() - 1])
    }
}

/// A path names a file by basename only when its final component is
/// non-empty and is neither `.` nor `..`.
pub open spec fn has_basename(s: Seq<char>) -> bool {
    final_component(s).len() > 0 && final_component(s) != seq!['.'] && final_component(s)
        != seq!['.', '.']
}

/// The final component never contains a separator.
pub proof fn lemma_final_component_no_sep(s: Seq<char>)
    ensures
        forall|i: int| 0 <= i < final_component(s).len() ==> final_component(s)[i] != '/',
    decreases s.len(),
{
    if s.len() == 0 {
    } else if s[s.len() - 1] == '/' {
    } else {
        lemma_final_component_no_sep(s.drop_last());
        let fc = final_component(s);
        let fd = final_component(s.drop_last());
        assert(fc == fd.push(s[s.len() - 1]));
        assert forall|i: int| 0 <= i < fc.len() implies fc[i] != '/' by {
            if i < fd.len() {
                assert(fc[i] == fd[i]);
            } else {
                assert(fc[i] == s[s.len() - 1]);
            }
        }
    }
}

/// When every character from `start` on differs from `/`, and `start` is
/// either the beginning or sits right after a `/`, the final component is
/// exactly the suffix from `start`.
pub proof fn lemma_final_component_is_suffix(s: Seq<char>, start: int)
    requires
        0 <= start <= s.len(),
        start > 0 ==> s[start - 1] == '/',
        forall|j: int| start <= j < s.len() ==> s[j] != '/',
    ensures
        final_component(s) == s.subrange(start, s.len() as int),
    decreases s.len(),
{
    if s.len() == 0 {
        assert(final_component(s) =~= s.subrange(0, 0));
    } else if start == s.len() {
        assert(s[s.len() - 1] == '/');
        assert(final_component(s) =~= s.subrange(start, s.len() as int));
    } else {
        assert(s[s.len() - 1] != '/');
        let d = s.drop_last();
        assert(forall|j: int| start <= j < d.len() ==> d[j] != '/');
        lemma_final_component_is_suffix(d, start);
        assert(final_component(s) == d.subrange(start, d.len() as int).push(s[s.len() - 1]));
        assert(d.subrange(start, d.len() as int).push(s[s.len() - 1]) =~= s.subrange(
            start,
            s.len() as int,
        ));
    }
}

/// The basename of `path`: its final component, or `None` when that
/// component is empty, `.` or `..`, and so names no file.
pub fn basename(path: &String) -> (r: Option<String>)
    ensures
        r is Some <==> has_basename(path@),
        r is Some ==> r->0@ == final_component(path@),
{
    let s = path.as_str();
    let len = s.unicode_len();
    let mut start: usize = 0;
    let mut i: usize = 0;
    while i < len
        invariant
            0 <= start <= i <= len,
            len == s@.len(),
            s@ == path@,
            start > 0 ==> s@[start - 1] == '/',
            forall|j: int| start <= j < i ==> s@[j] != '/',
        decreases len - i,
    {
        if s.get_char(i) == '/' {
            start = i + 1;
        }
        i += 1;
    }
    proof {
        lemma_final_component_is_suffix(path@, start as int);
    }
    let name = s.substring_char(start, len);
    let nlen = len - start;
    if nlen == 0 {
        None
    } else if nlen == 1 && name.get_char(0) == '.' {
        proof {
            assert(final_component(path@) =~= seq!['.']);
        }
        None
    } else if nlen == 2 && name.get_char(0) == '.' && name.get_char(1) == '.' {
        proof {
            assert(final_component(path@) =~= seq!['.', '.']);
        }
        None
    } else {
        proof {
            if final_component(path@) == seq!['.'] {
                assert(name@[0] == '.');
                assert(name@.len() == 1);
            }
            if final_component(path@) == seq!['.', '.'] {
                assert(name@[0] == '.' && name@[1] == '.');
                assert(name@.len() == 2);
            }
        }
        Some(name.to_owned())
    }
}

/// The destination path for a file named `name` inside the directory `dir`:
/// `dir/name`, without doubling a trailing separator.
pub open spec fn joined(dir: Seq<char>, name: Seq<char>) -> Seq<char> {
    if dir.len() == 0 {
        name
    } else if dir[dir.len() - 1] == '/' {
        dir + name
    } else {
        dir + seq!['/'] + name
    }
}

/// Join a file name onto a directory path.
pub fn join_path(dir: &String, name: &String) -> (r: String)
    ensures
        r@ == joined(dir@, name@),
{
    let d = dir.as_str();
    let dlen = d.unicode_len();
    if dlen == 0 {
        name.clone()
    } else if d.get_char(dlen - 1) == '/' {
        dir.clone().concat(name.as_str())
    } else {
        proof {
            reveal_strlit("/");
            assert("/"@ =~= seq!['/']);
        }
        let r = dir.clone().concat("/").concat(name.as_str());
        proof {
            assert(r@ =~= joined(dir@, name@));
        }
        r
    }
}

/// Appending a separator-free, non-empty name after a path that ends with a
/// separator leaves that name as the final component.
proof fn lemma_final_component_after_sep(p: Seq<char>, name: Seq<char>)
    requires
        p.len() > 0,
        p[p.len() - 1] == '/',
        name.len() > 0,
        forall|i: int| 0 <= i < name.len() ==> name[i] != '/',
    ensures
        final_component(p + name) == name,
    decreases name.len(),
{
    let s = p + name;
    assert(s[s.len() - 1] == name[name.len() - 1]);
    assert(s[s.len() - 1] != '/');
    if name.len() == 1 {
        assert(s.drop_last() =~= p);
        assert(final_component(p) =~= Seq::<char>::empty());
        assert(final_component(s) =~= name);
    } else {
        assert(s.drop_last() =~= p + name.drop_last());
        lemma_final_component_after_sep(p, name.drop_last());
        assert(final_component(s) =~= name);
    }
}

/// Joining a non-empty, separator-free name onto any directory path yields a
/// path whose final component is exactly that name.
pub proof fn lemma_joined_basename(dir: Seq<char>, name: Seq<char>)
    requires
        name.len() > 0,
        forall|i: int| 0 <= i < name.len() ==> name[i] != '/',
    ensures
        final_component(joined(dir, name)) == name,
{
    if dir.len() == 0 {
        lemma_final_component_is_suffix(name, 0);
        assert(name.subrange(0, name.len() as int) =~= name);
    } else if dir[dir.len() - 1] == '/' {
        lemma_final_component_after_sep(dir, name);
    } else {
        let p = dir + seq!['/'];
        assert(p[p.len() - 1] == '/');
        lemma_final_component_after_sep(p, name);
        assert(p + name =~= joined(dir, name));
    }
}

/// How one source specification is to be expanded. An existing directory is
/// enumerated, otherwise an existing regular file is taken literally, and
/// anything else is treated as a glob pattern.
pub enum SourceKind {
    Directory,
    File,
    Pattern,
}

/// The resolver's classification rule for one source specification, from the
/// two stat answers about it.
pub fn classify_source(is_dir: bool, is_file: bool) -> (k: SourceKind)
    ensures
        is_dir ==> k is Directory,
        !is_dir && is_file ==> k is File,
        !is_dir && !is_file ==> k is Pattern,
{
    if is_dir {
        SourceKind::Directory
    } else if is_file {
        SourceKind::File
    } else {
        SourceKind::Pattern
    }
}

/// The views of a sequence of strings.
pub open spec fn views_of(ss: Seq<String>) -> Seq<Seq<char>> {
    ss.map_values(|s: String| s@)
}

/// Concatenate the per-source resolved path lists into one source-major
/// list, preserving order within and across sources.
pub fn flatten_sources(groups: &Vec<Vec<String>>) -> (r: Vec<String>)
    ensures
        views_of(r@) == groups@.map_values(|g: Vec<String>| views_of(g@)).flatten(),
{
    let ghost gviews = groups@.map_values(|g: Vec<String>| views_of(g@));
    let mut r: Vec<String> = Vec::new();
    proof {
        assert(views_of(r@) =~= gviews.subrange(0, 0).flatten());
    }
    let mut i: usize = 0;
    while i < groups.len()
        invariant
            0 <= i <= groups.len(),
            gviews == groups@.map_values(|g: Vec<String>| views_of(g@)),
            views_of(r@) == gviews.subrange(0, i as int).flatten(),
        decreases groups.len() - i,
    {
        let g = &groups[i];
        let mut j: usize = 0;
        while j < g.len()
            invariant
                0 <= j <= g.len(),
                0 <= i < groups.len(),
                g == &groups[i as int],
                gviews == groups@.map_values(|gg: Vec<String>| views_of(gg@)),
                views_of(r@) == gviews.subrange(0, i as int).flatten() + views_of(
                    g@.subrange(0, j as int),
                ),
            decreases g.len() - j,
        {
            let ghost old_r = r@;
            r.push(g[j].clone());
            proof {
                assert(views_of(r@) =~= views_of(old_r).push(g@[j as int]@));
                assert(views_of(g@.subrange(0, j as int)).push(g@[j as int]@) =~= views_of(
                    g@.subrange(0, j + 1 as int),
                ));
                assert(views_of(r@) =~= gviews.subrange(0, i as int).flatten() + views_of(
                    g@.subrange(0, j + 1 as int),
                ));
            }
            j += 1;
        }
        proof {
            assert(g@.subrange(0, g@.len() as int) =~= g@);
            assert(views_of(g@) == gviews[i as int]);
            gviews.subrange(0, i as int).lemma_flatten_push(gviews[i as int]);
            assert(gviews.subrange(0, i as int).push(gviews[i as int]) =~= gviews.subrange(
                0,
                i + 1 as int,
            ));
            assert(views_of(r@) =~= gviews.subrange(0, i + 1 as int).flatten());
        }
        i += 1;
    }
    proof {
        assert(gviews.subrange(0, gviews.len() as int) =~= gviews);
    }
    r
}

/// Law: a source specification that resolves to no paths contributes no
/// entries — inserting an empty per-source list anywhere leaves the
/// flattened list of resolved paths unchanged.
pub proof fn lemma_empty_source_contributes_nothing(groups: Seq<Seq<Seq<char>>>, i: int)
    requires
        0 <= i <= groups.len(),
    ensures
        groups.insert(i, Seq::<Seq<char>>::empty()).flatten() == groups.flatten(),
{
    let left = groups.subrange(0, i);
    let right = groups.subrange(i, groups.len() as int);
    let mid = seq![Seq::<Seq<char>>::empty()];
    assert(groups.insert(i, Seq::<Seq<char>>::empty()) =~= left + mid + right);
    lemma_flatten_concat(left + mid, right);
    lemma_flatten_concat(left, mid);
    lemma_flatten_concat(left, right);
    mid.lemma_flatten_one_element();
    assert(mid.flatten() =~= Seq::<Seq<char>>::empty());
    assert((left + mid).flatten() =~= left.flatten());
    assert(left + right =~= groups);
    assert(groups.insert(i, Seq::<Seq<char>>::empty()).flatten() =~= groups.flatten());
}

} // verus!
