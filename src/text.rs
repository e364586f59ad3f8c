//! Character-level helpers shared by the text formats of this crate.
use vstd::prelude::*;
use vstd::std_specs::iter::IteratorSpec;
use vstd::string::StringExecFns;

verus! {

/// The characters of each string of `v`.
pub open spec fn views(v: Seq<String>) -> Seq<Seq<char>> {
    v.map_values(|s: String| s@)
}

/// Pushing a string pushes its characters.
pub proof fn lemma_views_push(v: Seq<String>, s: String)
    ensures
        views(v.push(s)) == views(v).push(s@),
{
    assert(views(v.push(s)) =~= views(v).push(s@));
}

/// The strings of `parts` with `sep` between each two of them.
pub open spec fn join_with(parts: Seq<Seq<char>>, sep: char) -> Seq<char>
    decreases parts.len(),
{
    if parts.len() == 0 {
        Seq::empty()
    } else if parts.len() == 1 {
        parts[0]
    } else {
        join_with(parts.drop_last(), sep).push(sep) + parts.last()
    }
}

/// Relies on `String::push`: appends one character at the end.
#[verifier::external_body]
pub(crate) fn push_char(s: &mut String, c: char)
    ensures
        final(s)@ == old(s)@.push(c),
{
    s.push(c)
}

/// The characters of `s`, in order.
pub fn chars_of(s: &str) -> (r: Vec<char>)
    ensures
        r@ == s@,
{
    broadcast use vstd::string::axiom_spec_iter, vstd::string::next_postcondition;

    let mut it = s.chars();
    let mut r: Vec<char> = Vec::new();
    loop
        invariant
            r@ + it.remaining() == s@,
            it.obeys_prophetic_iter_laws(),
            it.decrease() is Some,
        ensures
            r@ == s@,
        decreases it.decrease()->0,
    {
        match it.next() {
            Some(c) => {
                r.push(c);
            },
            None => {
                assert(r@ + it.remaining() =~= r@);
                break;
            },
        }
    }
    r
}

/// A `String` holding exactly the characters `cs[from..to]`.
pub fn string_of(cs: &Vec<char>, from: usize, to: usize) -> (r: String)
    requires
        from <= to <= cs@.len(),
    ensures
        r@ == cs@.subrange(from as int, to as int),
{
    let mut r = String::new();
    let mut i = from;
    while i < to
        invariant
            from <= i <= to <= cs@.len(),
            r@ == cs@.subrange(from as int, i as int),
        decreases to - i,
    {
        push_char(&mut r, cs[i]);
        i += 1;
    }
    r
}

/// Copies of the strings of `v`.
pub fn clone_all(v: &Vec<String>) -> (r: Vec<String>)
    ensures
        r@ == v@,
{
    let mut r: Vec<String> = Vec::new();
    let mut i: usize = 0;
    while i < v.len()
        invariant
            i <= v@.len(),
            r@ == v@.take(i as int),
        decreases v.len() - i,
    {
        r.push(v[i].clone());
        i += 1;
        assert(r@ =~= v@.take(i as int));
    }
    assert(v@.take(i as int) =~= v@);
    r
}

/// The pieces of `s` between the occurrences of `c`: one more piece than
/// there are occurrences, empty pieces included.
pub open spec fn split_on(s: Seq<char>, c: char) -> Seq<Seq<char>>
    decreases s.len(),
{
    if s.len() == 0 {
        seq![Seq::empty()]
    } else {
        let prev = split_on(s.drop_last(), c);
        if s.last() == c {
            prev.push(Seq::empty())
        } else {
            prev.update(prev.len() - 1, prev.last().push(s.last()))
        }
    }
}

/// The characters of each vector of `v`.
pub open spec fn char_views(v: Seq<Vec<char>>) -> Seq<Seq<char>> {
    v.map_values(|x: Vec<char>| x@)
}

/// Splitting always gives at least one piece.
pub proof fn lemma_split_nonempty(s: Seq<char>, c: char)
    ensures
        split_on(s, c).len() >= 1,
    decreases s.len(),
{
    if s.len() > 0 {
        lemma_split_nonempty(s.drop_last(), c);
    }
}

/// Appending text free of `c` extends the last piece.
pub proof fn lemma_split_append_plain(s: Seq<char>, w: Seq<char>, c: char)
    requires
        !w.contains(c),
    ensures
        split_on(s + w, c) == split_on(s, c).update(
            split_on(s, c).len() - 1,
            split_on(s, c).last() + w,
        ),
    decreases w.len(),
{
    lemma_split_nonempty(s, c);
    let sp = split_on(s, c);
    if w.len() == 0 {
        assert(s + w =~= s);
        assert(sp.last() + w =~= sp.last());
        assert(sp.update(sp.len() - 1, sp.last()) =~= sp);
    } else {
        let w1 = w.drop_last();
        assert(!w1.contains(c)) by {
            if w1.contains(c) {
                let i = w1.index_of(c);
                assert(w[i] == c);
            }
        }
        lemma_split_append_plain(s, w1, c);
        assert((s + w).drop_last() =~= s + w1);
        assert((s + w).last() == w.last());
        assert(w.last() != c) by {
            assert(w[w.len() - 1] == w.last());
        }
        assert((sp.last() + w1).push(w.last()) =~= sp.last() + w);
        assert(sp.update(sp.len() - 1, sp.last() + w1).update(sp.len() - 1, sp.last() + w)
            =~= sp.update(sp.len() - 1, sp.last() + w));
    }
}

/// `s` cut into the pieces between occurrences of `c`.
pub fn split_chars(s: &Vec<char>, c: char) -> (r: Vec<Vec<char>>)
    ensures
        char_views(r@) == split_on(s@, c),
{
    let mut pieces: Vec<Vec<char>> = Vec::new();
    let mut cur: Vec<char> = Vec::new();
    let mut i: usize = 0;
    while i < s.len()
        invariant
            i <= s@.len(),
            split_on(s@.take(i as int), c) == char_views(pieces@).push(cur@),
        decreases s.len() - i,
    {
        assert(s@.take(i + 1).drop_last() =~= s@.take(i as int));
        let ch = s[i];
        if ch == c {
            pieces.push(cur);
            cur = Vec::new();
        } else {
            cur.push(ch);
        }
        i += 1;
        assert(split_on(s@.take(i as int), c) =~= char_views(pieces@).push(cur@));
    }
    pieces.push(cur);
    assert(s@.take(i as int) =~= s@);
    assert(char_views(pieces@) =~= split_on(s@, c));
    pieces
}

/// The strings of `parts` joined by `sep`.
pub fn join_strings(parts: &Vec<String>, sep: char) -> (r: String)
    ensures
        r@ == join_with(views(parts@), sep),
{
    let ghost ps = views(parts@);
    let mut r = String::new();
    let mut i: usize = 0;
    while i < parts.len()
        invariant
            ps == views(parts@),
            i <= parts@.len(),
            r@ == join_with(ps.take(i as int), sep),
        decreases parts.len() - i,
    {
        assert(ps.take(i + 1).drop_last() =~= ps.take(i as int));
        if i > 0 {
            push_char(&mut r, sep);
        }
        r.append(parts[i].as_str());
        i += 1;
        if i == 1 {
            assert(Seq::<char>::empty() + ps[0] =~= ps[0]);
        }
    }
    assert(ps.take(i as int) =~= ps);
    r
}

} // verus!
