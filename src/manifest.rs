//! Manifests: the content hash and relative path of every file of a tree, and
//! their checksum text, one `"<hash> <path>"` line per entry.
use sha2::Digest;
use vstd::prelude::*;
use vstd::string::StringExecFns;

use crate::diff::{diff, diff_of, entries, Diff};
use crate::text::{
    char_views, chars_of, join_strings, join_with, lemma_split_append_plain, push_char, split_chars,
    split_on, string_of, views,
};

verus! {

/// The SHA-256 digest of `bytes`, as lowercase hexadecimal digits.
pub uninterp spec fn sha256_hex(bytes: Seq<u8>) -> Seq<char>;

/// `c` is one of the digits `0-9a-f`.
pub open spec fn is_lower_hex(c: char) -> bool {
    ('0' <= c && c <= '9') || ('a' <= c && c <= 'f')
}

/// Relies on `sha2::Sha256::digest` and on the `LowerHex` formatting of its
/// 32-byte output, which writes two digits of `0-9a-f` per byte.
#[verifier::external_body]
fn sha256_digest_hex(bytes: &[u8]) -> (r: String)
    ensures
        r@ == sha256_hex(bytes@),
        r@.len() == 64,
        forall|i: int| 0 <= i < r@.len() ==> is_lower_hex(#[trigger] r@[i]),
{
    format!("{:x}", sha2::Sha256::digest(bytes))
}

/// The manifest entry of one file: the hash of its content and its path.
pub fn manifest_entry(content: &[u8], path: String) -> (r: (String, String))
    ensures
        r.0@ == sha256_hex(content@),
        r.0@.len() == 64,
        forall|i: int| 0 <= i < r.0@.len() ==> is_lower_hex(#[trigger] r.0@[i]),
        r.1@ == path@,
{
    (sha256_digest_hex(content), path)
}

/// The separator of the components of a relative path.
pub const PATH_SEPARATOR: char = '/';

/// A relative path from its components, written with the one separator of the
/// manifests whatever the platform.
pub fn relative_path(parts: &Vec<String>) -> (r: String)
    ensures
        r@ == join_with(views(parts@), PATH_SEPARATOR),
{
    join_strings(parts, PATH_SEPARATOR)
}

/// The checksum text of a manifest: `"<hash> <path>\n"` for each entry, in order.
pub open spec fn checksum_text_of(m: Seq<(Seq<char>, Seq<char>)>) -> Seq<char>
    decreases m.len(),
{
    if m.len() == 0 {
        Seq::empty()
    } else {
        checksum_text_of(m.drop_last()) + m.last().0 + seq![' '] + m.last().1 + seq!['\n']
    }
}

/// Writes the checksum text of `m`.
pub fn checksum_text(m: &[(String, String)]) -> (r: String)
    ensures
        r@ == checksum_text_of(entries(m@)),
{
    let ghost em = entries(m@);
    let mut r = String::new();
    let mut i: usize = 0;
    while i < m.len()
        invariant
            em == entries(m@),
            i <= m@.len(),
            r@ == checksum_text_of(em.take(i as int)),
        decreases m.len() - i,
    {
        assert(em.take(i + 1).drop_last() =~= em.take(i as int));
        r.append(m[i].0.as_str());
        push_char(&mut r, ' ');
        r.append(m[i].1.as_str());
        push_char(&mut r, '\n');
        i += 1;
    }
    assert(em.take(i as int) =~= em);
    r
}

/// The non-empty pieces of `ts`, in order.
pub open spec fn nonempty_pieces(ts: Seq<Seq<char>>) -> Seq<Seq<char>>
    decreases ts.len(),
{
    if ts.len() == 0 {
        Seq::empty()
    } else if ts.last().len() > 0 {
        nonempty_pieces(ts.drop_last()).push(ts.last())
    } else {
        nonempty_pieces(ts.drop_last())
    }
}

/// The entry that a checksum line holds: its first two words separated by
/// spaces, if it has two.
pub open spec fn line_entry(line: Seq<char>) -> Option<(Seq<char>, Seq<char>)> {
    let words = nonempty_pieces(split_on(line, ' '));
    if words.len() >= 2 {
        Some((words[0], words[1]))
    } else {
        None
    }
}

/// The entries of the lines that hold one; the other lines are skipped.
pub open spec fn entries_of_lines(lines: Seq<Seq<char>>) -> Seq<(Seq<char>, Seq<char>)>
    decreases lines.len(),
{
    if lines.len() == 0 {
        Seq::empty()
    } else {
        match line_entry(lines.last()) {
            Some(e) => entries_of_lines(lines.drop_last()).push(e),
            None => entries_of_lines(lines.drop_last()),
        }
    }
}

/// The manifest that a checksum text describes.
pub open spec fn parse_checksums(text: Seq<char>) -> Seq<(Seq<char>, Seq<char>)> {
    entries_of_lines(split_on(text, '\n'))
}

/// The first two words of a line, if it has two.
fn parse_line(line: &Vec<char>) -> (r: Option<(String, String)>)
    ensures
        match r {
            Some(e) => line_entry(line@) == Some((e.0@, e.1@)),
            None => line_entry(line@) is None,
        },
{
    let words = split_chars(line, ' ');
    let ghost ws = char_views(words@);
    let mut first: Option<usize> = None;
    let mut second: Option<usize> = None;
    let mut k: usize = 0;
    while k < words.len() && second.is_none()
        invariant
            ws == char_views(words@),
            k <= words@.len(),
            first is None <==> nonempty_pieces(ws.take(k as int)).len() == 0,
            second is None <==> nonempty_pieces(ws.take(k as int)).len() < 2,
            nonempty_pieces(ws.take(k as int)).len() <= 2,
            first matches Some(a) ==> a < words@.len() && ws[a as int] == nonempty_pieces(
                ws.take(k as int),
            )[0],
            second matches Some(b) ==> b < words@.len() && ws[b as int] == nonempty_pieces(
                ws.take(k as int),
            )[1],
        decreases words.len() - k,
    {
        assert(ws.take(k + 1).drop_last() =~= ws.take(k as int));
        if words[k].len() > 0 {
            if first.is_none() {
                first = Some(k);
            } else {
                second = Some(k);
            }
        }
        k += 1;
    }
    match (first, second) {
        (Some(a), Some(b)) => {
            proof {
                lemma_nonempty_prefix(ws, k as int);
            }
            Some((string_of(&words[a], 0, words[a].len()), string_of(&words[b], 0, words[b].len())))
        },
        _ => {
            assert(ws.take(k as int) =~= ws);
            None
        },
    }
}

proof fn lemma_nonempty_prefix(ws: Seq<Seq<char>>, k: int)
    requires
        0 <= k <= ws.len(),
    ensures
        nonempty_pieces(ws.take(k)).len() <= nonempty_pieces(ws).len(),
        forall|i: int|
            0 <= i < nonempty_pieces(ws.take(k)).len() ==> #[trigger] nonempty_pieces(ws.take(k))[i]
                == nonempty_pieces(ws)[i],
    decreases ws.len() - k,
{
    if k < ws.len() {
        lemma_nonempty_prefix(ws, k + 1);
        assert(ws.take(k + 1).drop_last() =~= ws.take(k));
        let a = nonempty_pieces(ws.take(k));
        let b = nonempty_pieces(ws.take(k + 1));
        assert(forall|i: int| 0 <= i < a.len() ==> a[i] == b[i]);
        assert forall|i: int| 0 <= i < a.len() implies #[trigger] a[i] == nonempty_pieces(ws)[i] by {
            assert(b[i] == nonempty_pieces(ws)[i]);
        }
    } else {
        assert(ws.take(k) =~= ws);
    }
}

/// Reads a checksum text: each line that holds two words separated by spaces
/// gives the entry (first word, second word); other lines are skipped.
pub fn parse_hashes(hashes: &str) -> (r: Vec<(String, String)>)
    ensures
        entries(r@) == parse_checksums(hashes@),
{
    let text = chars_of(hashes);
    let lines = split_chars(&text, '\n');
    let ghost ls = char_views(lines@);
    let mut out: Vec<(String, String)> = Vec::new();
    let mut i: usize = 0;
    while i < lines.len()
        invariant
            ls == char_views(lines@),
            ls == split_on(hashes@, '\n'),
            i <= lines@.len(),
            entries(out@) == entries_of_lines(ls.take(i as int)),
        decreases lines.len() - i,
    {
        assert(ls.take(i + 1).drop_last() =~= ls.take(i as int));
        match parse_line(&lines[i]) {
            Some(e) => {
                out.push(e);
            },
            None => {},
        }
        i += 1;
        assert(entries(out@) =~= entries_of_lines(ls.take(i as int)));
    }
    assert(ls.take(i as int) =~= ls);
    out
}

/// The diff between the manifests that two checksum texts describe.
pub fn diff_hash_texts(old: &str, new: &str) -> (r: Diff)
    ensures
        r@ == diff_of(parse_checksums(old@), parse_checksums(new@)),
{
    let a = parse_hashes(old);
    let b = parse_hashes(new);
    diff(a.as_slice(), b.as_slice())
}

/// `a` comes before `b`, or equals it, in the order of paths: character by
/// character by code point, a prefix before its extensions.
pub open spec fn path_le(a: Seq<char>, b: Seq<char>) -> bool
    decreases a.len(),
{
    if a.len() == 0 {
        true
    } else if b.len() == 0 {
        false
    } else if a[0] != b[0] {
        a[0] < b[0]
    } else {
        path_le(a.skip(1), b.skip(1))
    }
}

/// Any two paths are ordered one way or the other.
pub proof fn lemma_path_le_total(a: Seq<char>, b: Seq<char>)
    ensures
        path_le(a, b) || path_le(b, a),
    decreases a.len(),
{
    if a.len() > 0 && b.len() > 0 && a[0] == b[0] {
        lemma_path_le_total(a.skip(1), b.skip(1));
    }
}

/// The order of paths is transitive.
pub proof fn lemma_path_le_transitive(a: Seq<char>, b: Seq<char>, c: Seq<char>)
    requires
        path_le(a, b),
        path_le(b, c),
    ensures
        path_le(a, c),
    decreases a.len(),
{
    if a.len() > 0 && b.len() > 0 && c.len() > 0 && a[0] == b[0] && b[0] == c[0] {
        lemma_path_le_transitive(a.skip(1), b.skip(1), c.skip(1));
    }
}

/// The entries of `m` are in the order of their paths.
pub open spec fn sorted_by_path(m: Seq<(String, String)>) -> bool {
    forall|i: int, j: int| 0 <= i < j < m.len() ==> path_le((#[trigger] m[i]).1@, (#[trigger] m[j]).1@)
}

/// Whether `a` comes before `b`, or equals it, in the order of paths.
pub fn path_le_exec(a: &String, b: &String) -> (r: bool)
    ensures
        r == path_le(a@, b@),
{
    let x = chars_of(a.as_str());
    let y = chars_of(b.as_str());
    let mut i: usize = 0;
    assert(x@.skip(0) =~= x@);
    assert(y@.skip(0) =~= y@);
    while i < x.len() && i < y.len()
        invariant
            x@ == a@,
            y@ == b@,
            i <= x@.len(),
            i <= y@.len(),
            path_le(a@, b@) == path_le(x@.skip(i as int), y@.skip(i as int)),
        decreases x.len() - i,
    {
        assert(x@.skip(i as int)[0] == x@[i as int]);
        assert(y@.skip(i as int)[0] == y@[i as int]);
        if x[i] != y[i] {
            return x[i] < y[i];
        }
        assert(x@.skip(i as int).skip(1) =~= x@.skip(i + 1));
        assert(y@.skip(i as int).skip(1) =~= y@.skip(i + 1));
        i += 1;
    }
    x.len() <= y.len()
}

/// A copy of one entry.
fn copy_entry(e: &(String, String)) -> (r: (String, String))
    ensures
        r == *e,
{
    (e.0.clone(), e.1.clone())
}

/// The entries of two sorted manifests, merged in the order of paths.
fn merge_by_path(a: &Vec<(String, String)>, b: &Vec<(String, String)>) -> (r: Vec<(String, String)>)
    requires
        sorted_by_path(a@),
        sorted_by_path(b@),
    ensures
        sorted_by_path(r@),
        r@.to_multiset() == a@.to_multiset().add(b@.to_multiset()),
{
    broadcast use vstd::seq_lib::group_to_multiset_ensures, vstd::multiset::group_multiset_axioms;

    let mut r: Vec<(String, String)> = Vec::new();
    let mut i: usize = 0;
    let mut j: usize = 0;
    while i < a.len() || j < b.len()
        invariant
            sorted_by_path(a@),
            sorted_by_path(b@),
            i <= a@.len(),
            j <= b@.len(),
            sorted_by_path(r@),
            r@.to_multiset() == a@.take(i as int).to_multiset().add(b@.take(j as int).to_multiset()),
            forall|x: int, k: int|
                0 <= x < r@.len() && i <= k < a@.len() ==> path_le(
                    (#[trigger] r@[x]).1@,
                    (#[trigger] a@[k]).1@,
                ),
            forall|x: int, k: int|
                0 <= x < r@.len() && j <= k < b@.len() ==> path_le(
                    (#[trigger] r@[x]).1@,
                    (#[trigger] b@[k]).1@,
                ),
        decreases a.len() + b.len() - i - j,
    {
        let take_a = j >= b.len() || (i < a.len() && path_le_exec(&a[i].1, &b[j].1));
        let ghost before = r@;
        let ghost (i0, j0) = (i as int, j as int);
        let e = if take_a {
            copy_entry(&a[i])
        } else {
            copy_entry(&b[j])
        };
        proof {
            if take_a {
                assert(e == a@[i0]);
                if j0 < b@.len() {
                    lemma_path_le_total(a@[i0].1@, b@[j0].1@);
                }
            } else {
                assert(e == b@[j0]);
                if i0 < a@.len() {
                    lemma_path_le_total(a@[i0].1@, b@[j0].1@);
                }
            }
            assert forall|k: int| i0 < k < a@.len() || (!take_a && k == i0 && i0 < a@.len())
                implies path_le(e.1@, (#[trigger] a@[k]).1@) by {
                if take_a {
                    assert(path_le(a@[i0].1@, a@[k].1@));
                } else if k > i0 {
                    assert(path_le(a@[i0].1@, a@[k].1@));
                    lemma_path_le_transitive(e.1@, a@[i0].1@, a@[k].1@);
                }
            }
            assert forall|k: int| j0 < k < b@.len() || (take_a && k == j0 && j0 < b@.len())
                implies path_le(e.1@, (#[trigger] b@[k]).1@) by {
                if !take_a {
                    assert(path_le(b@[j0].1@, b@[k].1@));
                } else if k > j0 {
                    assert(path_le(b@[j0].1@, b@[k].1@));
                    lemma_path_le_transitive(e.1@, b@[j0].1@, b@[k].1@);
                }
            }
        }
        r.push(e);
        if take_a {
            i += 1;
        } else {
            j += 1;
        }
        proof {
            assert(r@ == before.push(e));
            if take_a {
                assert(a@.take(i as int) =~= a@.take(i0).push(e));
                assert(b@.take(j as int) =~= b@.take(j0));
            } else {
                assert(b@.take(j as int) =~= b@.take(j0).push(e));
                assert(a@.take(i as int) =~= a@.take(i0));
            }
            vstd::seq_lib::to_multiset_build(before, e);
            if take_a {
                vstd::seq_lib::to_multiset_build(a@.take(i0), e);
            } else {
                vstd::seq_lib::to_multiset_build(b@.take(j0), e);
            }
            assert(r@.to_multiset() =~= a@.take(i as int).to_multiset().add(
                b@.take(j as int).to_multiset(),
            ));
            assert forall|x: int, y: int| 0 <= x < y < r@.len() implies path_le(
                (#[trigger] r@[x]).1@,
                (#[trigger] r@[y]).1@,
            ) by {
                assert(r@[x] == before[x] || x == before.len());
                if y == before.len() {
                    assert(r@[y] == e);
                    if take_a {
                        assert(path_le(before[x].1@, a@[i0].1@));
                    } else {
                        assert(path_le(before[x].1@, b@[j0].1@));
                    }
                } else {
                    assert(r@[x] == before[x] && r@[y] == before[y]);
                }
            }
            assert forall|x: int, k: int|
                0 <= x < r@.len() && i <= k < a@.len() implies path_le(
                (#[trigger] r@[x]).1@,
                (#[trigger] a@[k]).1@,
            ) by {
                if x < before.len() {
                    assert(r@[x] == before[x]);
                    assert(path_le(before[x].1@, a@[k].1@));
                } else {
                    assert(r@[x] == e);
                }
            }
            assert forall|x: int, k: int|
                0 <= x < r@.len() && j <= k < b@.len() implies path_le(
                (#[trigger] r@[x]).1@,
                (#[trigger] b@[k]).1@,
            ) by {
                if x < before.len() {
                    assert(r@[x] == before[x]);
                    assert(path_le(before[x].1@, b@[k].1@));
                } else {
                    assert(r@[x] == e);
                }
            }
        }
    }
    assert(a@.take(i as int) =~= a@);
    assert(b@.take(j as int) =~= b@);
    r
}

/// The entries `m[lo..hi]`, sorted by path.
fn sort_range(m: &Vec<(String, String)>, lo: usize, hi: usize) -> (r: Vec<(String, String)>)
    requires
        lo <= hi <= m@.len(),
    ensures
        sorted_by_path(r@),
        r@.to_multiset() == m@.subrange(lo as int, hi as int).to_multiset(),
    decreases hi - lo,
{
    broadcast use vstd::seq_lib::group_to_multiset_ensures;

    if hi - lo <= 1 {
        let mut r: Vec<(String, String)> = Vec::new();
        if hi > lo {
            r.push(copy_entry(&m[lo]));
            assert(r@ =~= m@.subrange(lo as int, hi as int));
        } else {
            assert(r@ =~= m@.subrange(lo as int, hi as int));
        }
        r
    } else {
        let mid = lo + (hi - lo) / 2;
        let left = sort_range(m, lo, mid);
        let right = sort_range(m, mid, hi);
        proof {
            vstd::seq_lib::lemma_multiset_commutative(
                m@.subrange(lo as int, mid as int),
                m@.subrange(mid as int, hi as int),
            );
            assert(m@.subrange(lo as int, mid as int) + m@.subrange(mid as int, hi as int)
                =~= m@.subrange(lo as int, hi as int));
        }
        merge_by_path(&left, &right)
    }
}

/// The entries of `m` sorted by path: the same entries, as many times each,
/// in the order of their paths.
pub fn sort_by_path(m: &Vec<(String, String)>) -> (r: Vec<(String, String)>)
    ensures
        sorted_by_path(r@),
        r@.to_multiset() == m@.to_multiset(),
{
    let r = sort_range(m, 0, m.len());
    assert(m@.subrange(0, m@.len() as int) =~= m@);
    r
}

/// A word that a checksum line can carry: not empty, without a space or a
/// line break.
pub open spec fn is_word(w: Seq<char>) -> bool {
    w.len() > 0 && !w.contains(' ') && !w.contains('\n')
}

proof fn lemma_line_entry(h: Seq<char>, p: Seq<char>)
    requires
        is_word(h),
        is_word(p),
    ensures
        line_entry(h + seq![' '] + p) == Some((h, p)),
        !(h + seq![' '] + p).contains('\n'),
{
    let e = Seq::<char>::empty();
    lemma_split_append_plain(e, h, ' ');
    assert(e + h =~= h);
    assert(split_on(h, ' ') =~= seq![h]);
    assert((h + seq![' ']).drop_last() =~= h);
    assert(split_on(h + seq![' '], ' ') =~= seq![h, e]);
    lemma_split_append_plain(h + seq![' '], p, ' ');
    assert(split_on(h + seq![' '] + p, ' ') =~= seq![h, p]);
    let ws = seq![h, p];
    assert(ws.drop_last() =~= seq![h]);
    assert(seq![h].drop_last() =~= Seq::<Seq<char>>::empty());
    assert(nonempty_pieces(Seq::<Seq<char>>::empty()) == Seq::<Seq<char>>::empty());
    assert(nonempty_pieces(seq![h]) == Seq::<Seq<char>>::empty().push(h));
    assert(Seq::<Seq<char>>::empty().push(h) =~= seq![h]);
    assert(nonempty_pieces(ws) == seq![h].push(p));
    assert(seq![h].push(p) =~= seq![h, p]);
    let line = h + seq![' '] + p;
    if line.contains('\n') {
        let i = line.index_of('\n');
        if i < h.len() {
            assert(h[i] == '\n');
        } else if i > h.len() {
            assert(p[i - h.len() - 1] == '\n');
        }
    }
}

proof fn lemma_empty_line()
    ensures
        line_entry(Seq::<char>::empty()) is None,
{
    let e = Seq::<char>::empty();
    let one = split_on(e, ' ');
    assert(one == seq![e]);
    assert(one.drop_last() =~= Seq::<Seq<char>>::empty());
    assert(one.last().len() == 0);
    assert(nonempty_pieces(one) == nonempty_pieces(Seq::<Seq<char>>::empty()));
}

proof fn lemma_checksum_lines(m: Seq<(Seq<char>, Seq<char>)>)
    requires
        forall|i: int| 0 <= i < m.len() ==> is_word((#[trigger] m[i]).0) && is_word(m[i].1),
    ensures
        exists|ls: Seq<Seq<char>>|
            split_on(checksum_text_of(m), '\n') == ls.push(Seq::empty()) && entries_of_lines(ls)
                == m,
    decreases m.len(),
{
    if m.len() == 0 {
        let ls = Seq::<Seq<char>>::empty();
        assert(split_on(checksum_text_of(m), '\n') =~= ls.push(Seq::empty()));
        assert(entries_of_lines(ls) =~= m);
        assert(split_on(checksum_text_of(m), '\n') == ls.push(Seq::empty()) && entries_of_lines(ls)
            == m);
    } else {
        let prev = m.drop_last();
        assert forall|i: int| 0 <= i < prev.len() implies is_word((#[trigger] prev[i]).0) && is_word(
            prev[i].1,
        ) by {
            assert(prev[i] == m[i]);
        }
        lemma_checksum_lines(prev);
        let ls = choose|ls: Seq<Seq<char>>|
            split_on(checksum_text_of(prev), '\n') == ls.push(Seq::empty()) && entries_of_lines(ls)
                == prev;
        let (h, p) = m.last();
        assert(m[m.len() - 1] == m.last());
        let line = h + seq![' '] + p;
        lemma_line_entry(h, p);
        let before = checksum_text_of(prev);
        lemma_split_append_plain(before, line, '\n');
        assert(Seq::<char>::empty() + line =~= line);
        assert(ls.push(Seq::empty()).update(ls.len() as int, line) =~= ls.push(line));
        assert(checksum_text_of(m) =~= (before + line).push('\n'));
        assert((before + line).push('\n').drop_last() =~= before + line);
        let ls2 = ls.push(line);
        assert(split_on(checksum_text_of(m), '\n') == ls2.push(Seq::empty()));
        assert(ls2.drop_last() =~= ls);
        assert(ls2.push(Seq::empty()).drop_last() =~= ls2);
        lemma_empty_line();
        assert(entries_of_lines(ls2) =~= m);
        assert(split_on(checksum_text_of(m), '\n') == ls2.push(Seq::empty()) && entries_of_lines(
            ls2,
        ) == m);
    }
}

/// Reading back the checksum text of a manifest whose hashes and paths are
/// words (non-empty, with no space or line break) gives the same entries, in
/// the same order.
pub proof fn lemma_checksum_round_trip(m: Seq<(Seq<char>, Seq<char>)>)
    requires
        forall|i: int| 0 <= i < m.len() ==> is_word((#[trigger] m[i]).0) && is_word(m[i].1),
    ensures
        parse_checksums(checksum_text_of(m)) == m,
{
    lemma_checksum_lines(m);
    let ls = choose|ls: Seq<Seq<char>>|
        split_on(checksum_text_of(m), '\n') == ls.push(Seq::empty()) && entries_of_lines(ls) == m;
    assert(ls.push(Seq::empty()).drop_last() =~= ls);
    lemma_empty_line();
}

} // verus!
