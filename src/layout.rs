//! Where entries land under the output root, and which directories that needs.
//!
//! A path is split at `/` into its non-empty components; an entry's path is
//! the components of its archive's install root followed by those of its
//! name. A directory placeholder needs its own path as a directory, a file
//! the path of its parent; every ancestor, up to the output root itself
//! (the empty path), is needed too.
use crate::merge::{MergedModel, MergedTable};
use crate::metadata::chars_of;
use vstd::hash_map::StringHashMap;
use vstd::prelude::*;

verus! {

/// The pieces of `p` between `/` separators, empty ones included.
pub open spec fn split_slash(p: Seq<char>) -> Seq<Seq<char>>
    decreases p.len(),
{
    if p.len() == 0 {
        seq![Seq::empty()]
    } else {
        let s = split_slash(p.drop_last());
        if p.last() == '/' {
            s.push(Seq::empty())
        } else {
            s.update(s.len() - 1, s.last().push(p.last()))
        }
    }
}

/// Whether a piece of a path is a component, that is, not empty.
pub open spec fn is_component() -> spec_fn(Seq<char>) -> bool {
    |c: Seq<char>| c.len() > 0
}

/// The non-empty components of `p`.
pub open spec fn components(p: Seq<char>) -> Seq<Seq<char>> {
    split_slash(p).filter(is_component())
}

proof fn lemma_filter_push(s: Seq<Seq<char>>, x: Seq<char>)
    ensures
        s.push(x).filter(is_component()) == if x.len() > 0 {
            s.filter(is_component()).push(x)
        } else {
            s.filter(is_component())
        },
{
    reveal(Seq::filter);
    assert(s.push(x).drop_last() =~= s);
    assert(is_component()(x) == (x.len() > 0));
}

/// Components joined with `/`.
pub open spec fn join_path(c: Seq<Seq<char>>) -> Seq<char>
    decreases c.len(),
{
    if c.len() == 0 {
        Seq::empty()
    } else if c.len() == 1 {
        c[0]
    } else {
        join_path(c.drop_last()) + seq!['/'] + c.last()
    }
}

/// The components of the path of an entry `name` of an archive installed at `root`.
pub open spec fn entry_components(root: Seq<char>, name: Seq<char>) -> Seq<Seq<char>> {
    components(root) + components(name)
}

/// The components of the directory an entry needs.
pub open spec fn entry_dir(root: Seq<char>, name: Seq<char>, is_dir: bool) -> Seq<Seq<char>> {
    let c = entry_components(root, name);
    if is_dir || c.len() == 0 {
        c
    } else {
        c.drop_last()
    }
}

/// The directories an entry needs: its directory and each ancestor.
pub open spec fn entry_dirs(root: Seq<char>, name: Seq<char>, is_dir: bool) -> Set<Seq<char>> {
    Set::new(
        |s: Seq<char>|
            exists|j: int|
                0 <= j <= entry_dir(root, name, is_dir).len() && s == join_path(
                    entry_dir(root, name, is_dir).take(j),
                ),
    )
}

/// The directories an entry `n` of a merged table needs.
pub open spec fn dirs_for(m: MergedModel, n: Seq<char>) -> Set<Seq<char>> {
    entry_dirs(m.archives[m.entries[n].0 as int].1, n, m.entries[n].1.real_size == 0)
}

/// The directories that the entries of a merged table need.
pub open spec fn directories_of(m: MergedModel) -> Set<Seq<char>> {
    Set::new(|s: Seq<char>| exists|n: Seq<char>| m.entries.dom().contains(n) && dirs_for(m, n).contains(s))
}

/// Whether `s` is the path of one of the strings of `v`.
pub open spec fn listed(v: Seq<String>, s: Seq<char>) -> bool {
    exists|a: int| 0 <= a < v.len() && v[a]@ == s
}

pub open spec fn views_of(v: Seq<String>) -> Seq<Seq<char>> {
    Seq::new(v.len(), |i: int| v[i]@)
}

/// The non-empty components of a path.
pub fn path_components(p: &String) -> (r: Vec<String>)
    ensures
        views_of(r@) == components(p@),
{
    let chars = chars_of(p.as_str());
    let n = chars.len();
    let mut out: Vec<String> = Vec::new();
    let mut start: usize = 0;
    let mut i: usize = 0;
    assert(p@.subrange(0, 0) =~= Seq::<char>::empty());
    while i < n
        invariant
            chars@ == p@,
            n == p@.len(),
            start <= i <= n,
            split_slash(p@.subrange(0, i as int)).last() == p@.subrange(start as int, i as int),
            split_slash(p@.subrange(0, i as int)).len() > 0,
            views_of(out@) == split_slash(p@.subrange(0, i as int)).drop_last().filter(
                is_component(),
            ),
        decreases n - i,
    {
        let ghost q = p@.subrange(0, i as int);
        let ghost q2 = p@.subrange(0, i + 1);
        assert(q2.drop_last() =~= q);
        let ghost s = split_slash(q);
        if chars[i] == '/' {
            let ghost before = views_of(out@);
            if start < i {
                let piece = String::from_str(p.as_str().substring_char(start, i));
                out.push(piece);
            }
            proof {
                assert(split_slash(q2) == s.push(Seq::empty()));
                assert(s.push(Seq::empty()).drop_last() =~= s);
                assert(s =~= s.drop_last().push(s.last()));
                lemma_filter_push(s.drop_last(), s.last());
                if start < i {
                    assert(views_of(out@) =~= before.push(s.last()));
                } else {
                    assert(views_of(out@) =~= before);
                }
                assert(p@.subrange(i + 1, i + 1) =~= Seq::<char>::empty());
            }
            start = i + 1;
        } else {
            proof {
                let u = s.update(s.len() - 1, s.last().push(p@[i as int]));
                assert(split_slash(q2) == u);
                assert(u.drop_last() =~= s.drop_last());
                assert(u.last() =~= p@.subrange(start as int, i + 1));
            }
        }
        i = i + 1;
    }
    let ghost s = split_slash(p@.subrange(0, n as int));
    assert(p@.subrange(0, n as int) =~= p@);
    let ghost before = views_of(out@);
    if start < n {
        let piece = String::from_str(p.as_str().substring_char(start, n));
        out.push(piece);
    }
    proof {
        assert(s =~= s.drop_last().push(s.last()));
        lemma_filter_push(s.drop_last(), s.last());
        if start < n {
            assert(views_of(out@) =~= before.push(s.last()));
        } else {
            assert(views_of(out@) =~= before);
        }
    }
    out
}

proof fn lemma_join_step(v: Seq<Seq<char>>, j: int)
    requires
        0 <= j < v.len(),
    ensures
        join_path(v.take(j + 1)) == if j == 0 {
            v[0]
        } else {
            join_path(v.take(j)) + seq!['/'] + v[j]
        },
{
    assert(v.take(j + 1).drop_last() =~= v.take(j));
    assert(v.take(j + 1).last() == v[j]);
}

/// Appends component `c` to the joined path `cur` of `j` components.
fn extend_path(cur: &mut String, j: usize, c: &String)
    ensures
        final(cur)@ == if j == 0 {
            c@
        } else {
            old(cur)@ + seq!['/'] + c@
        },
{
    if j == 0 {
        *cur = c.clone();
    } else {
        proof {
            reveal_strlit("/");
        }
        cur.append("/");
        cur.append(c.as_str());
    }
}

/// The path, relative to the output root, where an entry `name` of an
/// archive installed at `root` is written.
pub fn entry_path(root: &String, name: &String) -> (r: String)
    ensures
        r@ == join_path(entry_components(root@, name@)),
{
    let mut comps = path_components(root);
    let mut more = path_components(name);
    let ghost a = comps@;
    let ghost b = more@;
    comps.append(&mut more);
    let ghost v = views_of(comps@);
    assert(v =~= views_of(a) + views_of(b));
    let mut cur = String::new();
    let mut j: usize = 0;
    assert(v.take(0) =~= Seq::<Seq<char>>::empty());
    while j < comps.len()
        invariant
            j <= comps@.len(),
            v == views_of(comps@),
            cur@ == join_path(v.take(j as int)),
        decreases comps@.len() - j,
    {
        proof {
            lemma_join_step(v, j as int);
        }
        extend_path(&mut cur, j, &comps[j]);
        j = j + 1;
    }
    assert(v.take(j as int) =~= v);
    cur
}

/// Adds `dir` to `out` unless it is there already; `seen` indexes `out`.
fn note_dir(out: &mut Vec<String>, seen: &mut StringHashMap<usize>, dir: &String)
    requires
        forall|a: int, b: int| 0 <= a < b < old(out)@.len() ==> old(out)@[a]@ != old(out)@[b]@,
        forall|s: Seq<char>| #[trigger]
            old(seen)@.contains_key(s) <==> listed(old(out)@, s),
    ensures
        forall|a: int, b: int| 0 <= a < b < final(out)@.len() ==> final(out)@[a]@ != final(out)@[b]@,
        forall|s: Seq<char>| #[trigger]
            final(seen)@.contains_key(s) <==> listed(final(out)@, s),
        forall|s: Seq<char>| #[trigger]
            listed(final(out)@, s) <==> (listed(old(out)@, s) || s == dir@),
{
    if !seen.contains_key(dir.as_str()) {
        seen.insert(dir.clone(), out.len());
        out.push(dir.clone());
        proof {
            let n = out@.len() - 1;
            assert(out@[n]@ == dir@);
            assert forall|s: Seq<char>|
                listed(out@, s) <==> (listed(old(out)@, s) || s == dir@) by {
                if listed(out@, s) {
                    let a = choose|a: int| 0 <= a < out@.len() && out@[a]@ == s;
                    if a < n {
                        assert(old(out)@[a] == out@[a]);
                    }
                }
                if listed(old(out)@, s) {
                    let a = choose|a: int| 0 <= a < old(out)@.len() && old(out)@[a]@ == s;
                    assert(out@[a] == old(out)@[a]);
                }
            }
            assert forall|s: Seq<char>| #[trigger]
                seen@.contains_key(s) <==> listed(out@, s) by {
                if listed(old(out)@, s) {
                    let a = choose|a: int| 0 <= a < old(out)@.len() && old(out)@[a]@ == s;
                    assert(out@[a] == old(out)@[a]);
                }
                if s == dir@ {
                    assert(out@[n]@ == s);
                }
            }
            assert forall|a: int, b: int| 0 <= a < b < out@.len() implies out@[a]@ != out@[b]@ by {
                if b == n {
                    assert(old(seen)@.contains_key(old(out)@[a]@));
                } else {
                    assert(out@[a] == old(out)@[a] && out@[b] == old(out)@[b]);
                }
            }
        }
    }
}

/// The directories the entries of a merged table need, each listed once.
pub fn directories(table: &MergedTable) -> (r: Vec<String>)
    requires
        table.wf(),
    ensures
        forall|i: int, j: int| 0 <= i < j < r@.len() ==> r@[i]@ != r@[j]@,
        Set::new(|s: Seq<char>| exists|i: int| 0 <= i < r@.len() && r@[i]@ == s) == directories_of(
            table.model(),
        ),
{
    let ghost m = table.model();
    let descs = table.descriptors();
    let archives = table.archives();
    proof {
        table.lemma_descriptors();
    }
    let mut out: Vec<String> = Vec::new();
    let mut seen: StringHashMap<usize> = StringHashMap::new();
    let ghost mut acc: Set<Seq<char>> = Set::empty();
    let mut i: usize = 0;
    while i < descs.len()
        invariant
            table.wf(),
            i <= descs@.len(),
            descs@ == table.spec_descriptors(),
            m == table.model(),
            Seq::new(archives@.len(), |q: int| archives@[q]@) == m.archives,
            forall|q: int|
                0 <= q < descs@.len() ==> m.entries.dom().contains(#[trigger] descs@[q].name@)
                    && m.entries[descs@[q].name@].1 == descs@[q]@ && m.entries[descs@[q].name@].0
                    < m.archives.len(),
            forall|a: int, b: int| 0 <= a < b < out@.len() ==> out@[a]@ != out@[b]@,
            forall|s: Seq<char>| #[trigger]
                seen@.contains_key(s) <==> listed(out@, s),
            forall|s: Seq<char>|
                #![trigger acc.contains(s)]
                acc.contains(s) <==> listed(out@, s),
            acc == Set::new(
                |s: Seq<char>|
                    exists|q: int| 0 <= q < i && dirs_for(m, descs@[q].name@).contains(s),
            ),
        decreases descs@.len() - i,
    {
        let d = &descs[i];
        let k = match table.owner(&d.name) {
            Some(k) => k,
            None => {
                proof {
                    assert(m.entries.dom().contains(descs@[i as int].name@));
                }
                0
            },
        };
        let root = &archives[k].output_root_path;
        assert(root@ == m.archives[k as int].1);
        let mut comps = path_components(root);
        let mut more = path_components(&d.name);
        let ghost a0 = comps@;
        let ghost b0 = more@;
        comps.append(&mut more);
        let ghost v = views_of(comps@);
        assert(v =~= entry_components(root@, d.name@));
        let is_dir = d.real_size == 0;
        let len = if is_dir || comps.len() == 0 {
            comps.len()
        } else {
            comps.len() - 1
        };
        let ghost dir = entry_dir(root@, d.name@, is_dir);
        assert(dir =~= v.take(len as int));
        assert(dirs_for(m, d.name@) == entry_dirs(root@, d.name@, is_dir));
        let ghost acc0 = acc;
        let mut cur = String::new();
        let mut j: usize = 0;
        assert(v.take(0) =~= Seq::<Seq<char>>::empty());
        while j < len
            invariant
                j <= len,
                len <= comps@.len(),
                v == views_of(comps@),
                dir == v.take(len as int),
                cur@ == join_path(v.take(j as int)),
                forall|a: int, b: int| 0 <= a < b < out@.len() ==> out@[a]@ != out@[b]@,
                forall|s: Seq<char>| #[trigger]
                    seen@.contains_key(s) <==> listed(out@, s),
                forall|s: Seq<char>|
                    #![trigger acc.contains(s)]
                    acc.contains(s) <==> listed(out@, s),
                acc == acc0.union(
                    Set::new(
                        |s: Seq<char>|
                            exists|q: int| 0 <= q < j && s == join_path(dir.take(q)),
                    ),
                ),
            decreases len - j,
        {
            assert(v.take(j as int) =~= dir.take(j as int));
            note_dir(&mut out, &mut seen, &cur);
            proof {
                acc = acc.insert(cur@);
                assert forall|s: Seq<char>|
                    acc.contains(s) == acc0.union(
                        Set::new(
                            |s: Seq<char>|
                                exists|q: int| 0 <= q < j + 1 && s == join_path(dir.take(q)),
                        ),
                    ).contains(s) by {
                    if s == cur@ {
                        assert(s == join_path(dir.take(j as int)));
                    }
                }
                assert(acc =~= acc0.union(
                    Set::new(
                        |s: Seq<char>|
                            exists|q: int| 0 <= q < j + 1 && s == join_path(dir.take(q)),
                    ),
                ));
                lemma_join_step(v, j as int);
            }
            extend_path(&mut cur, j, &comps[j]);
            j = j + 1;
        }
        assert(v.take(j as int) =~= dir.take(j as int));
        note_dir(&mut out, &mut seen, &cur);
        proof {
            acc = acc.insert(cur@);
            assert forall|s: Seq<char>|
                acc.contains(s) == acc0.union(
                    Set::new(
                        |s: Seq<char>|
                            exists|q: int| 0 <= q < len + 1 && s == join_path(dir.take(q)),
                    ),
                ).contains(s) by {
                if s == cur@ {
                    assert(s == join_path(dir.take(len as int)));
                }
            }
            assert(acc =~= acc0.union(
                Set::new(
                    |s: Seq<char>|
                        exists|q: int| 0 <= q < len + 1 && s == join_path(dir.take(q)),
                ),
            ));
        }
        proof {
            assert forall|s: Seq<char>|
                acc.contains(s) == Set::new(
                    |s: Seq<char>|
                        exists|q: int| 0 <= q < i + 1 && dirs_for(m, descs@[q].name@).contains(s),
                ).contains(s) by {
                if exists|q: int| 0 <= q < i + 1 && dirs_for(m, descs@[q].name@).contains(s) {
                    let q = choose|q: int| 0 <= q < i + 1 && dirs_for(m, descs@[q].name@).contains(s);
                    if q == i {
                        let jj = choose|jj: int|
                            0 <= jj <= dir.len() && s == join_path(dir.take(jj));
                        assert(0 <= jj < len + 1 && s == join_path(dir.take(jj)));
                    }
                }
                if acc.contains(s) && !acc0.contains(s) {
                    let q = choose|q: int| 0 <= q < len + 1 && s == join_path(dir.take(q));
                    assert(entry_dirs(root@, d.name@, is_dir).contains(s));
                }
            }
            assert(acc =~= Set::new(
                |s: Seq<char>|
                    exists|q: int| 0 <= q < i + 1 && dirs_for(m, descs@[q].name@).contains(s),
            ));
        }
        i = i + 1;
    }
    proof {
        assert forall|s: Seq<char>|
            Set::new(|s: Seq<char>| listed(out@, s)).contains(s)
                == directories_of(m).contains(s) by {
            if directories_of(m).contains(s) {
                let n = choose|n: Seq<char>| m.entries.dom().contains(n) && dirs_for(m, n).contains(s);
                let q = choose|q: int| 0 <= q < descs@.len() && descs@[q].name@ == n;
                assert(acc.contains(s));
            }
            if acc.contains(s) {
                let q = choose|q: int| 0 <= q < i && dirs_for(m, descs@[q].name@).contains(s);
                assert(m.entries.dom().contains(descs@[q].name@));
            }
        }
        assert(Set::new(|s: Seq<char>| listed(out@, s))
            =~= directories_of(m));
    }
    out
}

} // verus!
