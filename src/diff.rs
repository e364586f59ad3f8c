//! The differ: classifies the paths of two manifests into added, removed and
//! modified ones.
use std::collections::HashMap;

use vstd::prelude::*;

use crate::text::{
    char_views, chars_of, clone_all, join_strings, join_with, lemma_split_append_plain, push_char,
    split_chars, split_on, string_of, views,
};
use vstd::string::StringExecFns;

verus! {

/// A manifest seen as (content hash, relative path) pairs of character sequences.
pub open spec fn entries(m: Seq<(String, String)>) -> Seq<(Seq<char>, Seq<char>)> {
    m.map_values(|e: (String, String)| (e.0@, e.1@))
}

/// Some entry of `m` has the path `p`.
pub open spec fn has_path(m: Seq<(Seq<char>, Seq<char>)>, p: Seq<char>) -> bool {
    exists|i: int| 0 <= i < m.len() && (#[trigger] m[i]).1 == p
}

/// No two entries of `m` share a path.
pub open spec fn unique_paths(m: Seq<(Seq<char>, Seq<char>)>) -> bool {
    forall|i: int, j: int| 0 <= i < m.len() && 0 <= j < m.len() && i != j ==> (#[trigger] m[i]).1
        != (#[trigger] m[j]).1
}

/// The paths of the entries of `m` that `keep` accepts, in the order of `m`.
pub open spec fn paths_where(
    m: Seq<(Seq<char>, Seq<char>)>,
    keep: spec_fn((Seq<char>, Seq<char>)) -> bool,
) -> Seq<Seq<char>>
    decreases m.len(),
{
    if m.len() == 0 {
        Seq::empty()
    } else {
        let prev = paths_where(m.drop_last(), keep);
        if keep(m.last()) {
            prev.push(m.last().1)
        } else {
            prev
        }
    }
}

/// Paths of `old` that `new` lacks.
pub open spec fn removed_paths(old: Seq<(Seq<char>, Seq<char>)>, new: Seq<(Seq<char>, Seq<char>)>) -> Seq<Seq<char>> {
    paths_where(old, |e: (Seq<char>, Seq<char>)| !has_path(new, e.1))
}

/// Paths of `new` that `old` lacks.
pub open spec fn added_paths(old: Seq<(Seq<char>, Seq<char>)>, new: Seq<(Seq<char>, Seq<char>)>) -> Seq<Seq<char>> {
    paths_where(new, |e: (Seq<char>, Seq<char>)| !has_path(old, e.1))
}

/// Paths of `new` that `old` has too, but not with the same content hash.
pub open spec fn modified_paths(old: Seq<(Seq<char>, Seq<char>)>, new: Seq<(Seq<char>, Seq<char>)>) -> Seq<Seq<char>> {
    paths_where(new, |e: (Seq<char>, Seq<char>)| has_path(old, e.1) && !old.contains(e))
}

/// What a diff holds: the three path lists.
pub struct DiffView {
    pub added: Seq<Seq<char>>,
    pub removed: Seq<Seq<char>>,
    pub modified: Seq<Seq<char>>,
}

/// The diff of two manifests.
pub open spec fn diff_of(old: Seq<(Seq<char>, Seq<char>)>, new: Seq<(Seq<char>, Seq<char>)>) -> DiffView {
    DiffView {
        added: added_paths(old, new),
        removed: removed_paths(old, new),
        modified: modified_paths(old, new),
    }
}

/// The change between two snapshots of a tree: paths that appeared, that
/// disappeared, and whose content changed.
pub struct Diff {
    pub added: Vec<String>,
    pub removed: Vec<String>,
    pub modified: Vec<String>,
}

impl View for Diff {
    type V = DiffView;

    open spec fn view(&self) -> DiffView {
        DiffView {
            added: views(self.added@),
            removed: views(self.removed@),
            modified: views(self.modified@),
        }
    }
}

/// One line per path: the tag, a space, the path, a line break.
pub open spec fn tagged_lines(tag: char, paths: Seq<Seq<char>>) -> Seq<char>
    decreases paths.len(),
{
    if paths.len() == 0 {
        Seq::empty()
    } else {
        tagged_lines(tag, paths.drop_last()) + seq![tag, ' '] + paths.last() + seq!['\n']
    }
}

/// The text form of a diff: the removed paths tagged `-`, then the added ones
/// tagged `+`, then the modified ones tagged `~`.
pub open spec fn diff_text_of(d: DiffView) -> Seq<char> {
    tagged_lines('-', d.removed) + tagged_lines('+', d.added) + tagged_lines('~', d.modified)
}

/// `line` starts with `tag` and a space.
pub open spec fn is_tagged(line: Seq<char>, tag: char) -> bool {
    line.len() >= 2 && line[0] == tag && line[1] == ' '
}

/// The diff that the lines of a diff text describe: each line tagged `+`, `~`
/// or `-` adds the rest of the line to the matching list; other lines are skipped.
pub open spec fn diff_of_lines(lines: Seq<Seq<char>>) -> DiffView
    decreases lines.len(),
{
    if lines.len() == 0 {
        DiffView { added: Seq::empty(), removed: Seq::empty(), modified: Seq::empty() }
    } else {
        let d = diff_of_lines(lines.drop_last());
        let l = lines.last();
        let rest = l.skip(2);
        if is_tagged(l, '+') {
            DiffView { added: d.added.push(rest), ..d }
        } else if is_tagged(l, '~') {
            DiffView { modified: d.modified.push(rest), ..d }
        } else if is_tagged(l, '-') {
            DiffView { removed: d.removed.push(rest), ..d }
        } else {
            d
        }
    }
}

/// Appends one tagged line per path.
fn push_tagged(out: &mut String, tag: char, paths: &Vec<String>)
    ensures
        final(out)@ == old(out)@ + tagged_lines(tag, views(paths@)),
{
    let ghost ps = views(paths@);
    let ghost start = out@;
    let mut i: usize = 0;
    while i < paths.len()
        invariant
            ps == views(paths@),
            i <= paths@.len(),
            out@ == start + tagged_lines(tag, ps.take(i as int)),
        decreases paths.len() - i,
    {
        assert(ps.take(i + 1).drop_last() =~= ps.take(i as int));
        push_char(out, tag);
        push_char(out, ' ');
        out.append(paths[i].as_str());
        push_char(out, '\n');
        i += 1;
        assert(out@ =~= start + tagged_lines(tag, ps.take(i as int)));
    }
    assert(ps.take(i as int) =~= ps);
}

impl Diff {
    /// The paths whose content an update carries: the added ones, then the modified ones.
    pub fn update_iter(&self) -> (r: Vec<String>)
        ensures
            views(r@) == self@.added + self@.modified,
    {
        let mut r = clone_all(&self.added);
        let mut i: usize = 0;
        while i < self.modified.len()
            invariant
                i <= self.modified@.len(),
                r@ == self.added@ + self.modified@.take(i as int),
            decreases self.modified.len() - i,
        {
            r.push(self.modified[i].clone());
            i += 1;
            assert(r@ =~= self.added@ + self.modified@.take(i as int));
        }
        assert(self.modified@.take(i as int) =~= self.modified@);
        assert(views(r@) =~= views(self.added@) + views(self.modified@));
        r
    }

    /// The removed paths, one per line, as the `removed` entry of an update lists them.
    pub fn removed_listing(&self) -> (r: String)
        ensures
            r@ == join_with(self@.removed, '\n'),
    {
        join_strings(&self.removed, '\n')
    }

    /// The text form of the diff.
    pub fn to_text(&self) -> (r: String)
        ensures
            r@ == diff_text_of(self@),
    {
        let mut r = String::new();
        push_tagged(&mut r, '-', &self.removed);
        push_tagged(&mut r, '+', &self.added);
        push_tagged(&mut r, '~', &self.modified);
        assert(r@ =~= diff_text_of(self@));
        r
    }

    /// Reads the text form of a diff: each line tagged `+`, `~` or `-` names a
    /// path of the matching list; other lines are skipped.
    pub fn from_text(text: &str) -> (r: Diff)
        ensures
            r@ == diff_of_lines(split_on(text@, '\n')),
    {
        let cs = chars_of(text);
        let lines = split_chars(&cs, '\n');
        let ghost ls = char_views(lines@);
        let mut added: Vec<String> = Vec::new();
        let mut removed: Vec<String> = Vec::new();
        let mut modified: Vec<String> = Vec::new();
        let mut i: usize = 0;
        assert(ls.take(0) =~= Seq::<Seq<char>>::empty());
        assert(views(added@) =~= Seq::<Seq<char>>::empty());
        while i < lines.len()
            invariant
                ls == char_views(lines@),
                ls == split_on(text@, '\n'),
                i <= lines@.len(),
                views(added@) == diff_of_lines(ls.take(i as int)).added,
                views(removed@) == diff_of_lines(ls.take(i as int)).removed,
                views(modified@) == diff_of_lines(ls.take(i as int)).modified,
            decreases lines.len() - i,
        {
            assert(ls.take(i + 1).drop_last() =~= ls.take(i as int));
            let line = &lines[i];
            if line.len() >= 2 && line[1] == ' ' {
                let rest = string_of(line, 2, line.len());
                assert(rest@ == ls[i as int].skip(2));
                if line[0] == '+' {
                    added.push(rest);
                } else if line[0] == '~' {
                    modified.push(rest);
                } else if line[0] == '-' {
                    removed.push(rest);
                }
            }
            i += 1;
            assert(views(added@) =~= diff_of_lines(ls.take(i as int)).added);
            assert(views(removed@) =~= diff_of_lines(ls.take(i as int)).removed);
            assert(views(modified@) =~= diff_of_lines(ls.take(i as int)).modified);
        }
        assert(ls.take(i as int) =~= ls);
        let r = Diff { added, removed, modified };
        assert(r@ == diff_of_lines(ls));
        r
    }
}

/// The modulus of the path keys, the largest prime below 2^32.
pub const KEY_MODULUS: u64 = 4294967291;

/// The bucket key of a path: a polynomial hash of its characters.
pub open spec fn path_key(s: Seq<char>) -> u64
    decreases s.len(),
{
    if s.len() == 0 {
        0
    } else {
        ((path_key(s.drop_last()) as int * 31 + (s.last() as u32) as int) % (KEY_MODULUS as int)) as u64
    }
}

/// The bucket key of `s`.
fn key_of(s: &String) -> (r: u64)
    ensures
        r == path_key(s@),
{
    let cs = chars_of(s.as_str());
    let mut h: u64 = 0;
    let mut i: usize = 0;
    while i < cs.len()
        invariant
            cs@ == s@,
            i <= cs@.len(),
            h == path_key(cs@.take(i as int)),
            h < KEY_MODULUS,
        decreases cs.len() - i,
    {
        assert(cs@.take(i + 1).drop_last() =~= cs@.take(i as int));
        let c = cs[i] as u32;
        h = (h * 31 + c as u64) % KEY_MODULUS;
        i += 1;
    }
    assert(cs@.take(i as int) =~= cs@);
    h
}

/// `index` finds every entry of `m`: each entry's position is in the bucket of
/// its path's key, and every bucket holds positions of `m`.
pub open spec fn indexes(index: Map<u64, Vec<usize>>, m: Seq<(Seq<char>, Seq<char>)>) -> bool {
    &&& forall|i: int|
        0 <= i < m.len() ==> index.contains_key(#[trigger] path_key(m[i].1)) && index[path_key(
            m[i].1,
        )]@.contains(i as usize)
    &&& forall|k: u64, j: int|
        index.contains_key(k) && 0 <= j < index[k]@.len() ==> #[trigger] index[k]@[j] < m.len()
}

/// The positions of the entries of `m`, bucketed by the keys of their paths.
fn build_index(m: &[(String, String)]) -> (r: HashMap<u64, Vec<usize>>)
    ensures
        indexes(r@, entries(m@)),
{
    broadcast use vstd::std_specs::hash::group_hash_axioms;

    let ghost em = entries(m@);
    let mut index: HashMap<u64, Vec<usize>> = HashMap::new();
    let mut i: usize = 0;
    while i < m.len()
        invariant
            em == entries(m@),
            i <= m@.len(),
            indexes(index@, em.take(i as int)),
        decreases m.len() - i,
    {
        let k = key_of(&m[i].1);
        let mut bucket = match index.remove(&k) {
            Some(b) => b,
            None => Vec::new(),
        };
        let ghost before = bucket@;
        bucket.push(i);
        index.insert(k, bucket);
        let ghost t = em.take(i + 1);
        assert forall|x: int| 0 <= x < t.len() implies index@.contains_key(
            #[trigger] path_key(t[x].1),
        ) && index@[path_key(t[x].1)]@.contains(x as usize) by {
            if x < i {
                assert(em.take(i as int)[x] == t[x]);
                if path_key(t[x].1) == k {
                    let y = before.index_of(x as usize);
                    assert(index@[k]@[y] == x as usize);
                }
            } else {
                assert(index@[k]@[before.len() as int] == i);
            }
        }
        i += 1;
    }
    assert(em.take(i as int) =~= em);
    index
}

/// Whether some entry of `m` has the path `p`; `index` indexes `m`.
fn contains_path(m: &[(String, String)], index: &HashMap<u64, Vec<usize>>, p: &String) -> (r: bool)
    requires
        indexes(index@, entries(m@)),
    ensures
        r == has_path(entries(m@), p@),
{
    broadcast use vstd::std_specs::hash::group_hash_axioms;

    let ghost em = entries(m@);
    let n = m.len();
    assert(em.len() == n);
    let k = key_of(p);
    match index.get(&k) {
        None => {
            assert forall|i: int| 0 <= i < em.len() implies (#[trigger] em[i]).1 != p@ by {
                assert(index@.contains_key(path_key(em[i].1)));
            }
            false
        },
        Some(bucket) => {
            let mut j: usize = 0;
            while j < bucket.len()
                invariant
                    em == entries(m@),
                    em.len() <= usize::MAX,
                    indexes(index@, em),
                    index@.contains_key(k),
                    index@[k] == *bucket,
                    k == path_key(p@),
                    j <= bucket@.len(),
                    forall|y: int| 0 <= y < j ==> em[bucket@[y] as int].1 != p@,
                decreases bucket.len() - j,
            {
                let x = bucket[j];
                assert(x < m.len());
                if m[x].1 == *p {
                    assert(em[x as int].1 == p@);
                    return true;
                }
                j += 1;
            }
            assert forall|i: int| 0 <= i < em.len() implies (#[trigger] em[i]).1 != p@ by {
                if em[i].1 == p@ {
                    assert(em.len() == m@.len());
                    assert(index@.contains_key(path_key(em[i].1)));
                    assert(bucket@.contains(i as usize));
                    let y = bucket@.index_of(i as usize);
                    assert(bucket@[y] as int == i);
                    assert(em[bucket@[y] as int].1 != p@);
                }
            }
            false
        },
    }
}

/// Whether `m` holds the entry `e`; `index` indexes `m`.
fn contains_entry(m: &[(String, String)], index: &HashMap<u64, Vec<usize>>, e: &(String, String)) -> (r: bool)
    requires
        indexes(index@, entries(m@)),
    ensures
        r == entries(m@).contains((e.0@, e.1@)),
{
    broadcast use vstd::std_specs::hash::group_hash_axioms;

    let ghost em = entries(m@);
    let n = m.len();
    assert(em.len() == n);
    let k = key_of(&e.1);
    match index.get(&k) {
        None => {
            proof {
                if em.contains((e.0@, e.1@)) {
                    let i = em.index_of((e.0@, e.1@));
                    assert(em[i].1 == e.1@);
                    assert(index@.contains_key(path_key(em[i].1)));
                }
            }
            false
        },
        Some(bucket) => {
            let mut j: usize = 0;
            while j < bucket.len()
                invariant
                    em == entries(m@),
                    em.len() <= usize::MAX,
                    indexes(index@, em),
                    index@.contains_key(k),
                    index@[k] == *bucket,
                    k == path_key(e.1@),
                    j <= bucket@.len(),
                    forall|y: int| 0 <= y < j ==> em[bucket@[y] as int] != (e.0@, e.1@),
                decreases bucket.len() - j,
            {
                let x = bucket[j];
                assert(x < m.len());
                if m[x].0 == e.0 && m[x].1 == e.1 {
                    assert(em[x as int] == (e.0@, e.1@));
                    assert(em.contains((e.0@, e.1@)));
                    return true;
                }
                j += 1;
            }
            proof {
                if em.contains((e.0@, e.1@)) {
                    let i = em.index_of((e.0@, e.1@));
                    assert(em.len() == m@.len());
                    assert(em[i].1 == e.1@);
                    assert(index@.contains_key(path_key(em[i].1)));
                    assert(index@[path_key(em[i].1)]@.contains(i as usize));
                    let y = bucket@.index_of(i as usize);
                    assert(bucket@[y] as int == i);
                    assert(em[bucket@[y] as int] != (e.0@, e.1@));
                }
            }
            false
        },
    }
}

/// Compares two manifests, `old` and `new`. `removed` lists the paths of `old`
/// that `new` lacks, `added` the paths of `new` that `old` lacks, and
/// `modified` the paths of `new` that `old` holds with another content hash;
/// each in the order of the manifest it comes from.
pub fn diff(old: &[(String, String)], new: &[(String, String)]) -> (r: Diff)
    ensures
        r@ == diff_of(entries(old@), entries(new@)),
{
    let ghost eo = entries(old@);
    let ghost en = entries(new@);
    let old_index = build_index(old);
    let new_index = build_index(new);
    let mut removed: Vec<String> = Vec::new();
    let mut i: usize = 0;
    while i < old.len()
        invariant
            eo == entries(old@),
            en == entries(new@),
            i <= old@.len(),
            indexes(new_index@, en),
            views(removed@) == removed_paths(eo.take(i as int), en),
        decreases old.len() - i,
    {
        assert(eo.take(i + 1).drop_last() =~= eo.take(i as int));
        if !contains_path(new, &new_index, &old[i].1) {
            removed.push(old[i].1.clone());
        }
        i += 1;
        assert(views(removed@) =~= removed_paths(eo.take(i as int), en));
    }
    let mut added: Vec<String> = Vec::new();
    let mut modified: Vec<String> = Vec::new();
    let mut j: usize = 0;
    while j < new.len()
        invariant
            eo == entries(old@),
            en == entries(new@),
            j <= new@.len(),
            indexes(old_index@, eo),
            views(added@) == added_paths(eo, en.take(j as int)),
            views(modified@) == modified_paths(eo, en.take(j as int)),
        decreases new.len() - j,
    {
        assert(en.take(j + 1).drop_last() =~= en.take(j as int));
        if !contains_path(old, &old_index, &new[j].1) {
            added.push(new[j].1.clone());
        } else if !contains_entry(old, &old_index, &new[j]) {
            modified.push(new[j].1.clone());
        }
        j += 1;
        assert(views(added@) =~= added_paths(eo, en.take(j as int)));
        assert(views(modified@) =~= modified_paths(eo, en.take(j as int)));
    }
    assert(eo.take(i as int) =~= eo);
    assert(en.take(j as int) =~= en);
    Diff { added, removed, modified }
}

proof fn lemma_paths_where_contains(
    m: Seq<(Seq<char>, Seq<char>)>,
    keep: spec_fn((Seq<char>, Seq<char>)) -> bool,
    p: Seq<char>,
)
    ensures
        paths_where(m, keep).contains(p) <==> exists|i: int|
            0 <= i < m.len() && keep(#[trigger] m[i]) && m[i].1 == p,
    decreases m.len(),
{
    if m.len() > 0 {
        let prev = m.drop_last();
        lemma_paths_where_contains(prev, keep, p);
        if paths_where(m, keep).contains(p) {
            if !paths_where(prev, keep).contains(p) {
                let k = paths_where(m, keep).index_of(p);
                assert(keep(m.last()) && m.last().1 == p);
                assert(keep(m[m.len() - 1]) && m[m.len() - 1].1 == p);
            } else {
                let i = choose|i: int| 0 <= i < prev.len() && keep(#[trigger] prev[i]) && prev[i].1 == p;
                assert(keep(m[i]) && m[i].1 == p);
            }
        }
        if exists|i: int| 0 <= i < m.len() && keep(#[trigger] m[i]) && m[i].1 == p {
            let i = choose|i: int| 0 <= i < m.len() && keep(#[trigger] m[i]) && m[i].1 == p;
            if i < m.len() - 1 {
                assert(keep(prev[i]) && prev[i].1 == p);
                assert(paths_where(prev, keep).contains(p));
                let k = paths_where(prev, keep).index_of(p);
                if keep(m.last()) {
                    assert(paths_where(m, keep)[k] == p);
                }
            } else {
                assert(paths_where(m, keep).last() == p);
            }
        }
    }
}

proof fn lemma_paths_where_unique(
    m: Seq<(Seq<char>, Seq<char>)>,
    keep: spec_fn((Seq<char>, Seq<char>)) -> bool,
)
    requires
        unique_paths(m),
    ensures
        paths_where(m, keep).no_duplicates(),
    decreases m.len(),
{
    if m.len() > 0 {
        let prev = m.drop_last();
        assert(unique_paths(prev)) by {
            assert forall|i: int, j: int|
                0 <= i < prev.len() && 0 <= j < prev.len() && i != j implies (#[trigger] prev[i]).1
                != (#[trigger] prev[j]).1 by {
                assert(prev[i] == m[i] && prev[j] == m[j]);
            }
        }
        lemma_paths_where_unique(prev, keep);
        if keep(m.last()) {
            lemma_paths_where_contains(prev, keep, m.last().1);
            if paths_where(prev, keep).contains(m.last().1) {
                let i = choose|i: int|
                    0 <= i < prev.len() && keep(#[trigger] prev[i]) && prev[i].1 == m.last().1;
                assert(m[i].1 == m[m.len() - 1].1);
            }
            let q = paths_where(prev, keep);
            let r = paths_where(m, keep);
            assert forall|a: int, b: int| 0 <= a < r.len() && 0 <= b < r.len() && a != b implies r[a]
                != r[b] by {
                if a < q.len() && b < q.len() {
                    assert(r[a] == q[a] && r[b] == q[b]);
                } else if a < q.len() {
                    assert(q.contains(r[a]));
                } else {
                    assert(q.contains(r[b]));
                }
            }
        }
    }
}

proof fn lemma_paths_where_none(
    m: Seq<(Seq<char>, Seq<char>)>,
    keep: spec_fn((Seq<char>, Seq<char>)) -> bool,
)
    requires
        forall|i: int| 0 <= i < m.len() ==> !keep(#[trigger] m[i]),
    ensures
        paths_where(m, keep) == Seq::<Seq<char>>::empty(),
    decreases m.len(),
{
    if m.len() > 0 {
        let prev = m.drop_last();
        assert(!keep(m[m.len() - 1]));
        assert forall|i: int| 0 <= i < prev.len() implies !keep(#[trigger] prev[i]) by {
            assert(prev[i] == m[i]);
        }
        lemma_paths_where_none(prev, keep);
    }
}

/// Both manifests hold path `p`, with different content hashes.
pub open spec fn hash_changed(
    old: Seq<(Seq<char>, Seq<char>)>,
    new: Seq<(Seq<char>, Seq<char>)>,
    p: Seq<char>,
) -> bool {
    exists|i: int, j: int|
        0 <= i < old.len() && 0 <= j < new.len() && (#[trigger] old[i]).1 == p && (#[trigger] new[j]).1
            == p && old[i].0 != new[j].0
}

/// The three lists of a diff partition the changed paths: a path is removed
/// exactly when only the old manifest has it, added exactly when only the new
/// one has it, and modified exactly when both have it with different hashes;
/// so no path is in two lists, and no list names a path twice.
pub proof fn lemma_diff_partition(old: Seq<(Seq<char>, Seq<char>)>, new: Seq<(Seq<char>, Seq<char>)>)
    requires
        unique_paths(old),
        unique_paths(new),
    ensures
        forall|p: Seq<char>|
            #![trigger diff_of(old, new).removed.contains(p)]
            #![trigger diff_of(old, new).added.contains(p)]
            #![trigger diff_of(old, new).modified.contains(p)]
            {
                &&& diff_of(old, new).removed.contains(p) <==> has_path(old, p) && !has_path(new, p)
                &&& diff_of(old, new).added.contains(p) <==> has_path(new, p) && !has_path(old, p)
                &&& diff_of(old, new).modified.contains(p) <==> hash_changed(old, new, p)
            },
        diff_of(old, new).removed.no_duplicates(),
        diff_of(old, new).added.no_duplicates(),
        diff_of(old, new).modified.no_duplicates(),
{
    let d = diff_of(old, new);
    let keep_removed = |e: (Seq<char>, Seq<char>)| !has_path(new, e.1);
    let keep_added = |e: (Seq<char>, Seq<char>)| !has_path(old, e.1);
    let keep_modified = |e: (Seq<char>, Seq<char>)| has_path(old, e.1) && !old.contains(e);
    assert forall|p: Seq<char>|
        {
            &&& d.removed.contains(p) <==> has_path(old, p) && !has_path(new, p)
            &&& d.added.contains(p) <==> has_path(new, p) && !has_path(old, p)
            &&& d.modified.contains(p) <==> hash_changed(old, new, p)
        } by {
        lemma_paths_where_contains(old, keep_removed, p);
        lemma_paths_where_contains(new, keep_added, p);
        lemma_paths_where_contains(new, keep_modified, p);
        if d.modified.contains(p) {
            let j = choose|j: int| 0 <= j < new.len() && keep_modified(#[trigger] new[j]) && new[j].1 == p;
            let i = choose|i: int| 0 <= i < old.len() && (#[trigger] old[i]).1 == new[j].1;
            assert(old[i] != new[j]);
        }
        if hash_changed(old, new, p) {
            let (i, j) = choose|i: int, j: int|
                0 <= i < old.len() && 0 <= j < new.len() && (#[trigger] old[i]).1 == p && (#[trigger] new[j]).1
                    == p && old[i].0 != new[j].0;
            if old.contains(new[j]) {
                let k = old.index_of(new[j]);
                assert(old[k].1 == old[i].1);
            }
            assert(keep_modified(new[j]));
        }
    }
    lemma_paths_where_unique(old, keep_removed);
    lemma_paths_where_unique(new, keep_added);
    lemma_paths_where_unique(new, keep_modified);
}

/// A manifest compared with itself has no added, removed or modified path.
pub proof fn lemma_diff_self(m: Seq<(Seq<char>, Seq<char>)>)
    ensures
        diff_of(m, m).added == Seq::<Seq<char>>::empty(),
        diff_of(m, m).removed == Seq::<Seq<char>>::empty(),
        diff_of(m, m).modified == Seq::<Seq<char>>::empty(),
{
    let keep_gone = |e: (Seq<char>, Seq<char>)| !has_path(m, e.1);
    let keep_modified = |e: (Seq<char>, Seq<char>)| has_path(m, e.1) && !m.contains(e);
    assert forall|i: int| 0 <= i < m.len() implies !keep_gone(#[trigger] m[i]) && !keep_modified(m[i]) by {
        assert(m.contains(m[i]));
    }
    lemma_paths_where_none(m, keep_gone);
    lemma_paths_where_none(m, keep_modified);
}

/// The line of `path` under `tag`, without its line break.
pub open spec fn tagged_line(tag: char, path: Seq<char>) -> Seq<char> {
    seq![tag, ' '] + path
}

/// The lines of `paths` under `tag`, without their line breaks.
pub open spec fn lines_of(tag: char, paths: Seq<Seq<char>>) -> Seq<Seq<char>> {
    paths.map_values(|p: Seq<char>| tagged_line(tag, p))
}

/// `d` with `paths` appended to the list that `tag` marks.
pub open spec fn with_paths(d: DiffView, tag: char, paths: Seq<Seq<char>>) -> DiffView {
    if tag == '+' {
        DiffView { added: d.added + paths, ..d }
    } else if tag == '~' {
        DiffView { modified: d.modified + paths, ..d }
    } else {
        DiffView { removed: d.removed + paths, ..d }
    }
}

/// No path of `paths` holds a line break.
pub open spec fn single_line_paths(paths: Seq<Seq<char>>) -> bool {
    forall|i: int| 0 <= i < paths.len() ==> !(#[trigger] paths[i]).contains('\n')
}

proof fn lemma_split_tagged_lines(s: Seq<char>, x: Seq<Seq<char>>, tag: char, paths: Seq<Seq<char>>)
    requires
        tag != '\n',
        split_on(s, '\n') == x.push(Seq::empty()),
        single_line_paths(paths),
    ensures
        split_on(s + tagged_lines(tag, paths), '\n') == (x + lines_of(tag, paths)).push(Seq::empty()),
    decreases paths.len(),
{
    if paths.len() == 0 {
        assert(s + tagged_lines(tag, paths) =~= s);
        assert(x + lines_of(tag, paths) =~= x);
    } else {
        let prev = paths.drop_last();
        assert(single_line_paths(prev)) by {
            assert forall|i: int| 0 <= i < prev.len() implies !(#[trigger] prev[i]).contains('\n') by {
                assert(prev[i] == paths[i]);
            }
        }
        lemma_split_tagged_lines(s, x, tag, prev);
        let before = s + tagged_lines(tag, prev);
        let p = paths.last();
        assert(!p.contains('\n')) by {
            assert(paths[paths.len() - 1] == p);
        }
        let line = tagged_line(tag, p);
        assert(!line.contains('\n')) by {
            if line.contains('\n') {
                let i = line.index_of('\n');
                if i >= 2 {
                    assert(p[i - 2] == '\n');
                }
            }
        }
        lemma_split_append_plain(before, line, '\n');
        let y = x + lines_of(tag, prev);
        assert(Seq::<char>::empty() + line =~= line);
        assert(y.push(Seq::empty()).update(y.len() as int, line) =~= y.push(line));
        assert(s + tagged_lines(tag, paths) =~= (before + line).push('\n'));
        assert((before + line).push('\n').drop_last() =~= before + line);
        assert(y.push(line) =~= x + lines_of(tag, paths));
    }
}

proof fn lemma_diff_of_tagged_lines(x: Seq<Seq<char>>, tag: char, paths: Seq<Seq<char>>)
    requires
        tag == '+' || tag == '~' || tag == '-',
    ensures
        diff_of_lines(x + lines_of(tag, paths)) == with_paths(diff_of_lines(x), tag, paths),
    decreases paths.len(),
{
    let d = diff_of_lines(x);
    if paths.len() == 0 {
        assert(x + lines_of(tag, paths) =~= x);
        assert(d.added + paths =~= d.added);
        assert(d.modified + paths =~= d.modified);
        assert(d.removed + paths =~= d.removed);
    } else {
        let prev = paths.drop_last();
        lemma_diff_of_tagged_lines(x, tag, prev);
        let ls = x + lines_of(tag, paths);
        assert(ls.drop_last() =~= x + lines_of(tag, prev));
        let l = tagged_line(tag, paths.last());
        assert(ls.last() == l);
        assert(l.skip(2) =~= paths.last());
        assert(l[0] == tag && l[1] == ' ');
        assert((d.added + prev).push(paths.last()) =~= d.added + paths);
        assert((d.modified + prev).push(paths.last()) =~= d.modified + paths);
        assert((d.removed + prev).push(paths.last()) =~= d.removed + paths);
    }
}

/// Reading back the text form of a diff whose paths hold no line break gives
/// the same diff.
pub proof fn lemma_diff_text_round_trip(d: DiffView)
    requires
        single_line_paths(d.removed),
        single_line_paths(d.added),
        single_line_paths(d.modified),
    ensures
        diff_of_lines(split_on(diff_text_of(d), '\n')) == d,
{
    let e = Seq::<Seq<char>>::empty();
    let t0 = Seq::<char>::empty();
    assert(split_on(t0, '\n') == e.push(Seq::empty()));
    let lr = lines_of('-', d.removed);
    let la = lines_of('+', d.added);
    let lm = lines_of('~', d.modified);
    lemma_split_tagged_lines(t0, e, '-', d.removed);
    let t1 = t0 + tagged_lines('-', d.removed);
    lemma_split_tagged_lines(t1, e + lr, '+', d.added);
    let t2 = t1 + tagged_lines('+', d.added);
    lemma_split_tagged_lines(t2, e + lr + la, '~', d.modified);
    let t3 = t2 + tagged_lines('~', d.modified);
    assert(t3 =~= diff_text_of(d));
    let all = e + lr + la + lm;
    assert(all.push(Seq::empty()).drop_last() =~= all);
    assert(!is_tagged(Seq::<char>::empty(), '+'));
    lemma_diff_of_tagged_lines(e, '-', d.removed);
    lemma_diff_of_tagged_lines(e + lr, '+', d.added);
    lemma_diff_of_tagged_lines(e + lr + la, '~', d.modified);
    let d0 = diff_of_lines(e);
    assert(d0.removed + d.removed =~= d.removed);
    assert(d0.added + d.added =~= d.added);
    assert(d0.modified + d.modified =~= d.modified);
}

} // verus!
