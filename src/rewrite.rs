//! The rewrite engine: an ordered list of literal find/replace rules applied in
//! one pass over a text, and the two rule sets of the deployment variants.
use vstd::prelude::*;
use vstd::string::StringExecFns;

use crate::text::{chars_of, push_char};

verus! {

/// `p` occurs in `t` starting at position `k`.
pub open spec fn occurs_at(t: Seq<char>, p: Seq<char>, k: int) -> bool {
    0 <= k && k + p.len() <= t.len() && t.subrange(k, k + p.len()) == p
}

/// Scanning `t` from the left for non-overlapping occurrences of `p`, the end
/// of the last occurrence taken that starts before `k` (0 if there is none).
pub open spec fn scan_end(t: Seq<char>, p: Seq<char>, k: nat) -> int
    decreases k,
{
    if k == 0 {
        0
    } else {
        let prev = scan_end(t, p, (k - 1) as nat);
        if occurs_at(t, p, k - 1) && k - 1 >= prev {
            k - 1 + p.len()
        } else {
            prev
        }
    }
}

/// `k` is the start of one of the leftmost non-overlapping occurrences of `p` in `t`.
pub open spec fn is_match(t: Seq<char>, p: Seq<char>, k: int) -> bool {
    &&& 0 <= k
    &&& occurs_at(t, p, k)
    &&& k >= scan_end(t, p, k as nat)
}

/// The rules as pairs of character sequences (source, target).
pub open spec fn rules_view(rules: Seq<(&str, &str)>) -> Seq<(Seq<char>, Seq<char>)> {
    rules.map_values(|r: (&str, &str)| (r.0@, r.1@))
}

/// Rule `r` matches `t` at position `k`.
pub open spec fn selected(t: Seq<char>, rules: Seq<(Seq<char>, Seq<char>)>, k: int, r: int) -> bool {
    0 <= r < rules.len() && is_match(t, rules[r].0, k)
}

/// Two matches, of the same or of different rules, share a position of `t`.
pub open spec fn has_overlap(t: Seq<char>, rules: Seq<(Seq<char>, Seq<char>)>) -> bool {
    exists|k1: int, r1: int, k2: int, r2: int|
        #![trigger selected(t, rules, k1, r1), selected(t, rules, k2, r2)]
        selected(t, rules, k1, r1) && selected(t, rules, k2, r2) && (k1 != k2 || r1 != r2) && k1
            <= k2 < k1 + rules[r1].0.len()
}

/// Some rule has an empty source literal.
pub open spec fn has_empty_source(rules: Seq<(Seq<char>, Seq<char>)>) -> bool {
    exists|r: int| 0 <= r < rules.len() && (#[trigger] rules[r]).0.len() == 0
}

/// The text from position `k` on, with every match replaced by its rule's target.
pub open spec fn rewrite_from(t: Seq<char>, rules: Seq<(Seq<char>, Seq<char>)>, k: int) -> Seq<
    char,
>
    decreases t.len() - k,
{
    if k >= t.len() || k < 0 {
        Seq::empty()
    } else if exists|r: int| selected(t, rules, k, r) {
        let r = choose|r: int| selected(t, rules, k, r);
        let step = if rules[r].0.len() > 0 {
            rules[r].0.len() as int
        } else {
            1
        };
        rules[r].1 + rewrite_from(t, rules, k + step)
    } else {
        seq![t[k]] + rewrite_from(t, rules, k + 1)
    }
}

/// `t` with every match of every rule replaced by that rule's target.
pub open spec fn rewrite(t: Seq<char>, rules: Seq<(Seq<char>, Seq<char>)>) -> Seq<char> {
    rewrite_from(t, rules, 0)
}

/// What applying `rules` to `t` gives: an error for an empty source literal or
/// for overlapping matches, else the rewritten text.
pub open spec fn rewrite_result(t: Seq<char>, rules: Seq<(Seq<char>, Seq<char>)>) -> Result<
    Seq<char>,
    RewriteError,
> {
    if has_empty_source(rules) {
        Err(RewriteError::EmptySource)
    } else if has_overlap(t, rules) {
        Err(RewriteError::Overlap)
    } else {
        Ok(rewrite(t, rules))
    }
}

/// A rewrite result with the text seen as its characters.
pub open spec fn result_view(r: Result<String, RewriteError>) -> Result<Seq<char>, RewriteError> {
    match r {
        Ok(s) => Ok(s@),
        Err(e) => Err(e),
    }
}

/// Why a rule set could not be applied to a text.
#[derive(Debug, Clone, Copy, PartialEq, Eq, Structural)]
pub enum RewriteError {
    /// A rule's source literal is empty.
    EmptySource,
    /// Two matches share a position of the text.
    Overlap,
}

/// Whether `p` occurs in `t` at position `k`.
fn occurs_at_exec(t: &Vec<char>, p: &Vec<char>, k: usize) -> (r: bool)
    ensures
        r == occurs_at(t@, p@, k as int),
{
    if k > t.len() || p.len() > t.len() - k {
        return false;
    }
    let mut i: usize = 0;
    while i < p.len()
        invariant
            k + p@.len() <= t@.len() <= usize::MAX,
            i <= p@.len(),
            forall|j: int| 0 <= j < i ==> t@[k + j] == p@[j],
        decreases p.len() - i,
    {
        if t[k + i] != p[i] {
            assert(t@.subrange(k as int, k + p@.len())[i as int] != p@[i as int]);
            return false;
        }
        i += 1;
    }
    assert(t@.subrange(k as int, k + p@.len()) =~= p@);
    true
}

/// Replaces every match of the rules' source literals in `input` by the
/// matching targets. Each rule's matches are its leftmost non-overlapping
/// occurrences; matches of all rules are taken in order of position, and the
/// text between them is kept as it is.
pub fn replace(input: String, rules: &[(&str, &str)]) -> (r: Result<String, RewriteError>)
    ensures
        result_view(r) == rewrite_result(input@, rules_view(rules@)),
{
    let ghost rs = rules_view(rules@);
    let n = rules.len();
    let mut sources: Vec<Vec<char>> = Vec::new();
    let mut ends: Vec<usize> = Vec::new();
    let mut i: usize = 0;
    while i < n
        invariant
            n == rules@.len() == rs.len(),
            rs == rules_view(rules@),
            i <= n,
            sources@.len() == i,
            ends@.len() == i,
            forall|j: int| 0 <= j < i ==> (#[trigger] sources@[j])@ == rs[j].0,
            forall|j: int| 0 <= j < i ==> rs[j].0.len() > 0,
            forall|j: int| 0 <= j < i ==> #[trigger] ends@[j] == 0,
        decreases n - i,
    {
        let s = chars_of(rules[i].0);
        assert(rs[i as int].0 == s@);
        if s.len() == 0 {
            return Err(RewriteError::EmptySource);
        }
        sources.push(s);
        ends.push(0);
        i += 1;
    }
    let t = chars_of(input.as_str());
    let ghost tv = t@;
    let mut out = String::new();
    let mut cursor: usize = 0;
    let mut k: usize = 0;
    while k < t.len()
        invariant
            tv == t@,
            tv == input@,
            n == rs.len() == sources@.len() == ends@.len(),
            rs == rules_view(rules@),
            forall|j: int| 0 <= j < n ==> (#[trigger] sources@[j])@ == rs[j].0,
            forall|j: int| 0 <= j < n ==> rs[j].0.len() > 0,
            forall|j: int| 0 <= j < n ==> #[trigger] ends@[j] == scan_end(tv, rs[j].0, k as nat),
            k <= cursor <= tv.len(),
            forall|k1: int, r1: int, k2: int, r2: int|
                #![trigger selected(tv, rs, k1, r1), selected(tv, rs, k2, r2)]
                selected(tv, rs, k1, r1) && selected(tv, rs, k2, r2) && (k1 != k2 || r1 != r2)
                    && k1 <= k2 < k ==> k2 >= k1 + rs[r1].0.len(),
            forall|k1: int, r1: int|
                selected(tv, rs, k1, r1) && k1 < k ==> k1 + rs[r1].0.len() <= cursor,
            cursor > k ==> exists|k1: int, r1: int|
                selected(tv, rs, k1, r1) && k1 < k && k1 + rs[r1].0.len() == cursor,
            rewrite(tv, rs) == out@ + rewrite_from(tv, rs, cursor as int),
        decreases t.len() - k,
    {
        let mut found: Option<usize> = None;
        let mut j: usize = 0;
        while j < n
            invariant
                tv == t@,
                tv == input@,
                rs == rules_view(rules@),
                tv.len() <= usize::MAX,
                k < tv.len(),
                k <= cursor <= tv.len(),
                n == rs.len() == sources@.len() == ends@.len(),
                forall|j: int| 0 <= j < n ==> (#[trigger] sources@[j])@ == rs[j].0,
                forall|j: int| 0 <= j < n ==> rs[j].0.len() > 0,
                j <= n,
                cursor > k ==> exists|k1: int, r1: int|
                    selected(tv, rs, k1, r1) && k1 < k && k1 + rs[r1].0.len() == cursor,
                forall|x: int|
                    0 <= x < j ==> #[trigger] ends@[x] == scan_end(tv, rs[x].0, (k + 1) as nat),
                forall|x: int| j <= x < n ==> #[trigger] ends@[x] == scan_end(tv, rs[x].0, k as nat),
                found.is_none() ==> forall|x: int| 0 <= x < j ==> !selected(tv, rs, k as int, x),
                found matches Some(f) ==> {
                    &&& f < j
                    &&& selected(tv, rs, k as int, f as int)
                    &&& k == cursor
                    &&& forall|x: int| 0 <= x < j && x != f ==> !selected(tv, rs, k as int, x)
                },
            decreases n - j,
        {
            let ghost p = rs[j as int].0;
            let hit = k >= ends[j] && occurs_at_exec(&t, &sources[j], k);
            assert(hit == selected(tv, rs, k as int, j as int));
            if hit {
                if found.is_some() || k < cursor {
                    proof {
                        if let Some(f) = found {
                            assert(selected(tv, rs, k as int, f as int));
                            assert(selected(tv, rs, k as int, j as int));
                        } else {
                            let (k1, r1) = choose|k1: int, r1: int|
                                selected(tv, rs, k1, r1) && k1 < k && k1 + rs[r1].0.len()
                                    == cursor;
                            assert(selected(tv, rs, k1, r1));
                            assert(selected(tv, rs, k as int, j as int));
                        }
                        assert(has_overlap(tv, rs));
                        assert(!has_empty_source(rs));
                    }
                    return Err(RewriteError::Overlap);
                }
                assert(sources@[j as int]@ == rs[j as int].0);
                let len = sources[j].len();
                assert(occurs_at(tv, rs[j as int].0, k as int));
                assert(k + len <= tv.len());
                ends.set(j, k + len);
                found = Some(j);
            }
            assert(ends@[j as int] == scan_end(tv, p, (k + 1) as nat));
            j += 1;
        }
        if k == cursor {
            match found {
                Some(f) => {
                    out.append(rules[f].1);
                    cursor = k + sources[f].len();
                },
                None => {
                    push_char(&mut out, t[k]);
                    cursor = k + 1;
                },
            }
        }
        k += 1;
    }
    Ok(out)
}

/// The literal that starts an embedded interactive example.
pub const EXAMPLES_SOURCE: &'static str = "src=\\\"https://interactive-examples.mdn.mozilla.net";

/// The literal that starts an embedded live sample.
pub const LIVE_SAMPLES_SOURCE: &'static str = "src=\\\"https://live-samples.mdn.mozilla.net";

/// Where interactive examples live in the app variant.
pub const APP_EXAMPLES_TARGET: &'static str = "src=\\\"mdn-app://examples/examples";

/// Where live samples live in the app variant.
pub const APP_LIVE_SAMPLES_TARGET: &'static str = "src=\\\"mdn-app://live-samples";

/// Where interactive examples live in the web variant.
pub const WEB_EXAMPLES_TARGET: &'static str = "src=\\\"/examples";

/// Where live samples live in the web variant.
pub const WEB_LIVE_SAMPLES_TARGET: &'static str = "src=\\\"";

/// The rules of the app variant: absolute example URLs to the app's own scheme.
pub open spec fn app_rules() -> Seq<(Seq<char>, Seq<char>)> {
    seq![(EXAMPLES_SOURCE@, APP_EXAMPLES_TARGET@), (LIVE_SAMPLES_SOURCE@, APP_LIVE_SAMPLES_TARGET@)]
}

/// The rules of the web variant: absolute example URLs to site-root paths.
pub open spec fn web_rules() -> Seq<(Seq<char>, Seq<char>)> {
    seq![(EXAMPLES_SOURCE@, WEB_EXAMPLES_TARGET@), (LIVE_SAMPLES_SOURCE@, WEB_LIVE_SAMPLES_TARGET@)]
}

proof fn lemma_scan_end_monotone(t: Seq<char>, p: Seq<char>, i: nat, j: nat)
    requires
        i <= j,
    ensures
        scan_end(t, p, i) <= scan_end(t, p, j),
    decreases j - i,
{
    if i < j {
        lemma_scan_end_monotone(t, p, i, (j - 1) as nat);
    }
}

/// Two matches of one source literal never overlap.
pub proof fn lemma_matches_apart(t: Seq<char>, p: Seq<char>, k1: int, k2: int)
    requires
        is_match(t, p, k1),
        is_match(t, p, k2),
        k1 < k2,
    ensures
        k2 >= k1 + p.len(),
{
    lemma_scan_end_monotone(t, p, (k1 + 1) as nat, k2 as nat);
}

/// The literal facts that keep the two example sources from overlapping: they
/// start with `"sr"`, differ at position 14, and neither holds `"sr"` past its
/// start.
proof fn lemma_sources_shape()
    ensures
        EXAMPLES_SOURCE@.len() == 50,
        LIVE_SAMPLES_SOURCE@.len() == 42,
        EXAMPLES_SOURCE@[0] == 's' && EXAMPLES_SOURCE@[1] == 'r',
        LIVE_SAMPLES_SOURCE@[0] == 's' && LIVE_SAMPLES_SOURCE@[1] == 'r',
        EXAMPLES_SOURCE@[14] != LIVE_SAMPLES_SOURCE@[14],
        forall|d: int|
            0 < d < EXAMPLES_SOURCE@.len() && #[trigger] EXAMPLES_SOURCE@[d] == 's' ==> d + 1
                < EXAMPLES_SOURCE@.len() && EXAMPLES_SOURCE@[d + 1] != 'r',
        forall|d: int|
            0 < d < LIVE_SAMPLES_SOURCE@.len() && #[trigger] LIVE_SAMPLES_SOURCE@[d] == 's' ==> d + 1
                < LIVE_SAMPLES_SOURCE@.len() && LIVE_SAMPLES_SOURCE@[d + 1] != 'r',
{
    reveal_strlit("src=\\\"https://interactive-examples.mdn.mozilla.net");
    reveal_strlit("src=\\\"https://live-samples.mdn.mozilla.net");
}

proof fn lemma_no_cross_overlap(t: Seq<char>, a: Seq<char>, b: Seq<char>, k1: int, k2: int)
    requires
        a.len() > 14 && b.len() > 14,
        a[0] == 's' && a[1] == 'r' && b[0] == 's' && b[1] == 'r',
        a[14] != b[14],
        forall|d: int| 0 < d < a.len() && #[trigger] a[d] == 's' ==> d + 1 < a.len() && a[d + 1] != 'r',
        occurs_at(t, a, k1),
        occurs_at(t, b, k2),
    ensures
        !(k1 <= k2 < k1 + a.len()),
{
    if k1 <= k2 < k1 + a.len() {
        let d = k2 - k1;
        assert(t.subrange(k2, k2 + b.len())[0] == b[0]);
        assert(t.subrange(k2, k2 + b.len())[1] == b[1]);
        assert(t.subrange(k1, k1 + a.len())[d] == a[d]);
        if d == 0 {
            assert(t.subrange(k2, k2 + b.len())[14] == b[14]);
            assert(t.subrange(k1, k1 + a.len())[14] == a[14]);
        } else {
            assert(a[d] == 's');
            assert(t.subrange(k1, k1 + a.len())[d + 1] == a[d + 1]);
        }
    }
}

/// Rule sets whose sources are the two example literals, in that order.
pub open spec fn example_sources(rules: Seq<(Seq<char>, Seq<char>)>) -> bool {
    rules.len() == 2 && rules[0].0 == EXAMPLES_SOURCE@ && rules[1].0 == LIVE_SAMPLES_SOURCE@
}

/// The rules of both variants apply to every text: their sources are not
/// empty, and no two of their matches overlap.
pub proof fn lemma_example_rules_apply(t: Seq<char>, rules: Seq<(Seq<char>, Seq<char>)>)
    requires
        example_sources(rules),
    ensures
        !has_empty_source(rules),
        !has_overlap(t, rules),
{
    lemma_sources_shape();
    let a = EXAMPLES_SOURCE@;
    let b = LIVE_SAMPLES_SOURCE@;
    assert forall|k1: int, r1: int, k2: int, r2: int|
        selected(t, rules, k1, r1) && selected(t, rules, k2, r2) && (k1 != k2 || r1 != r2) && k1
            <= k2 implies !(k2 < k1 + rules[r1].0.len()) by {
        if r1 == r2 {
            lemma_matches_apart(t, rules[r1].0, k1, k2);
        } else if r1 == 0 {
            lemma_no_cross_overlap(t, a, b, k1, k2);
        } else {
            lemma_no_cross_overlap(t, b, a, k1, k2);
        }
    }
    assert(!has_empty_source(rules)) by {
        assert forall|r: int| 0 <= r < rules.len() implies (#[trigger] rules[r]).0.len() != 0 by {
            if r == 0 {
                assert(rules[r].0 == a);
            } else {
                assert(rules[r].0 == b);
            }
        }
    }
}

/// Rewrites `input` with the rules of the app variant.
pub fn replace_all_app(input: String) -> (r: String)
    ensures
        r@ == rewrite(input@, app_rules()),
{
    let rules = vec![
        (EXAMPLES_SOURCE, APP_EXAMPLES_TARGET),
        (LIVE_SAMPLES_SOURCE, APP_LIVE_SAMPLES_TARGET),
    ];
    assert(rules_view(rules@) =~= app_rules());
    proof {
        lemma_example_rules_apply(input@, app_rules());
    }
    match replace(input, rules.as_slice()) {
        Ok(s) => s,
        Err(_) => {
            // the example rules apply to every text, so this arm is never taken
            assert(false);
            String::new()
        },
    }
}

/// Rewrites `input` with the rules of the web variant.
pub fn replace_all_web(input: String) -> (r: String)
    ensures
        r@ == rewrite(input@, web_rules()),
{
    let rules = vec![
        (EXAMPLES_SOURCE, WEB_EXAMPLES_TARGET),
        (LIVE_SAMPLES_SOURCE, WEB_LIVE_SAMPLES_TARGET),
    ];
    assert(rules_view(rules@) =~= web_rules());
    proof {
        lemma_example_rules_apply(input@, web_rules());
    }
    match replace(input, rules.as_slice()) {
        Ok(s) => s,
        Err(_) => {
            // the example rules apply to every text, so this arm is never taken
            assert(false);
            String::new()
        },
    }
}

/// The flavour of an archive: untouched, or rewritten for one deployment target.
#[derive(Debug, Clone, Copy, PartialEq, Eq, Structural)]
pub enum Variant {
    Raw,
    App,
    Web,
}

/// The rules that a variant applies.
pub open spec fn variant_rules(v: Variant) -> Seq<(Seq<char>, Seq<char>)> {
    match v {
        Variant::Raw => Seq::empty(),
        Variant::App => app_rules(),
        Variant::Web => web_rules(),
    }
}

/// Rewrites `input` with the rules of `variant`; the raw variant keeps it as it is.
pub fn rewrite_variant(input: String, variant: Variant) -> (r: String)
    ensures
        r@ == rewrite(input@, variant_rules(variant)),
{
    match variant {
        Variant::Raw => {
            proof {
                lemma_rewrite_no_match(input@, Seq::empty());
            }
            input
        },
        Variant::App => replace_all_app(input),
        Variant::Web => replace_all_web(input),
    }
}

proof fn lemma_rewrite_from_no_match(t: Seq<char>, rules: Seq<(Seq<char>, Seq<char>)>, k: int)
    requires
        0 <= k <= t.len(),
        forall|r: int, i: int| 0 <= r < rules.len() ==> !occurs_at(t, rules[r].0, i),
    ensures
        rewrite_from(t, rules, k) == t.subrange(k, t.len() as int),
    decreases t.len() - k,
{
    if k < t.len() {
        lemma_rewrite_from_no_match(t, rules, k + 1);
        assert(!exists|r: int| selected(t, rules, k, r));
        assert(seq![t[k]] + t.subrange(k + 1, t.len() as int) =~= t.subrange(k, t.len() as int));
    } else {
        assert(t.subrange(k, k) =~= Seq::<char>::empty());
    }
}

/// A text in which no source literal of the rules occurs comes out of the
/// rewrite as it went in.
pub proof fn lemma_rewrite_no_match(t: Seq<char>, rules: Seq<(Seq<char>, Seq<char>)>)
    requires
        forall|r: int, i: int| 0 <= r < rules.len() ==> !occurs_at(t, rules[r].0, i),
    ensures
        rewrite_result(t, rules) == Ok::<Seq<char>, RewriteError>(t),
{
    lemma_rewrite_from_no_match(t, rules, 0);
    assert(t.subrange(0, t.len() as int) =~= t);
    if has_empty_source(rules) {
        let r = choose|r: int| 0 <= r < rules.len() && (#[trigger] rules[r]).0.len() == 0;
        assert(t.subrange(0, 0) =~= rules[r].0);
        assert(occurs_at(t, rules[r].0, 0));
    }
}

/// Once a rewrite leaves no source literal in its output, rewriting that
/// output again changes nothing.
pub proof fn lemma_rewrite_idempotent(t: Seq<char>, rules: Seq<(Seq<char>, Seq<char>)>)
    requires
        rewrite_result(t, rules) is Ok,
        forall|r: int, i: int|
            0 <= r < rules.len() ==> !occurs_at(rewrite(t, rules), rules[r].0, i),
    ensures
        rewrite_result(rewrite(t, rules), rules) == rewrite_result(t, rules),
{
    lemma_rewrite_no_match(rewrite(t, rules), rules);
}

proof fn lemma_scan_end_none(t: Seq<char>, p: Seq<char>, k: nat)
    requires
        forall|j: int| 0 <= j < k ==> !occurs_at(t, p, j),
    ensures
        scan_end(t, p, k) == 0,
    decreases k,
{
    if k > 0 {
        lemma_scan_end_none(t, p, (k - 1) as nat);
    }
}

proof fn lemma_rewrite_plain(t: Seq<char>, rules: Seq<(Seq<char>, Seq<char>)>, k: int, end: int)
    requires
        0 <= k <= end <= t.len(),
        forall|j: int, r: int| k <= j < end ==> !selected(t, rules, j, r),
    ensures
        rewrite_from(t, rules, k) == t.subrange(k, end) + rewrite_from(t, rules, end),
    decreases end - k,
{
    if k < end {
        lemma_rewrite_plain(t, rules, k + 1, end);
        assert(!exists|r: int| selected(t, rules, k, r));
        assert(seq![t[k]] + t.subrange(k + 1, end) =~= t.subrange(k, end));
        assert(seq![t[k]] + (t.subrange(k + 1, end) + rewrite_from(t, rules, end)) =~= t.subrange(
            k,
            end,
        ) + rewrite_from(t, rules, end));
    } else {
        assert(t.subrange(k, k) + rewrite_from(t, rules, end) =~= rewrite_from(t, rules, end));
    }
}

/// Where the source of rule `i` occurs once in a text, and no source occurs
/// anywhere else, the rewrite puts rule `i`'s target in place of that
/// occurrence and keeps the text around it.
pub proof fn lemma_rewrite_single(
    u: Seq<char>,
    v: Seq<char>,
    rules: Seq<(Seq<char>, Seq<char>)>,
    i: int,
)
    requires
        0 <= i < rules.len(),
        rules[i].0.len() > 0,
        forall|r: int, k: int|
            0 <= r < rules.len() && #[trigger] occurs_at(u + rules[i].0 + v, rules[r].0, k) ==> r
                == i && k == u.len(),
    ensures
        rewrite(u + rules[i].0 + v, rules) == u + rules[i].1 + v,
{
    let s = rules[i].0;
    let t = u + s + v;
    let at = u.len() as int;
    let after = at + s.len();
    assert forall|j: int, r: int| 0 <= j < t.len() && j != at implies !selected(t, rules, j, r) by {
        if selected(t, rules, j, r) {
            assert(occurs_at(t, rules[r].0, j));
        }
    }
    assert(t.subrange(at, after) =~= s);
    lemma_scan_end_none(t, s, at as nat);
    assert(selected(t, rules, at, i));
    assert forall|r: int| selected(t, rules, at, r) implies r == i by {
        assert(occurs_at(t, rules[r].0, at));
    }
    lemma_rewrite_plain(t, rules, 0, at);
    lemma_rewrite_plain(t, rules, after, t.len() as int);
    assert(t.subrange(0, at) =~= u);
    assert(t.subrange(after, t.len() as int) =~= v);
    assert(rewrite_from(t, rules, t.len() as int) == Seq::<char>::empty());
    assert(v + Seq::<char>::empty() =~= v);
    assert(rewrite_from(t, rules, at) == rules[i].1 + rewrite_from(t, rules, after));
    assert(u + (rules[i].1 + v) =~= u + rules[i].1 + v);
}

/// The target of the example URL prefix in `variant`.
pub open spec fn examples_target(variant: Variant) -> Seq<char> {
    match variant {
        Variant::App => APP_EXAMPLES_TARGET@,
        Variant::Web => WEB_EXAMPLES_TARGET@,
        Variant::Raw => EXAMPLES_SOURCE@,
    }
}

/// An index text that holds the interactive-example URL prefix once, and no
/// other example URL, comes out of each variant with that prefix replaced by
/// the variant's target (the app scheme, or the site-root path) and the rest
/// of the text kept.
pub proof fn lemma_example_url_rewritten(u: Seq<char>, v: Seq<char>, variant: Variant)
    requires
        forall|r: int, k: int|
            0 <= r < variant_rules(variant).len() && #[trigger] occurs_at(
                u + EXAMPLES_SOURCE@ + v,
                variant_rules(variant)[r].0,
                k,
            ) ==> r == 0 && k == u.len(),
    ensures
        rewrite(u + EXAMPLES_SOURCE@ + v, variant_rules(variant)) == u + examples_target(variant) + v,
{
    lemma_sources_shape();
    match variant {
        Variant::Raw => {
            assert(u + EXAMPLES_SOURCE@ + v == u + examples_target(variant) + v);
            lemma_rewrite_no_match(u + EXAMPLES_SOURCE@ + v, Seq::empty());
        },
        _ => {
            lemma_rewrite_single(u, v, variant_rules(variant), 0);
        },
    }
}

/// The suffix that marks an index document, the files that the rewrite applies to.
pub const INDEX_SUFFIX: &'static str = "index.json";

/// `s` ends with `suffix`.
pub open spec fn ends_with(s: Seq<char>, suffix: Seq<char>) -> bool {
    suffix.len() <= s.len() && s.subrange(s.len() - suffix.len(), s.len() as int) == suffix
}

/// Whether the entry `name` is an index document, whose text the variants rewrite.
pub fn is_index_file(name: &str) -> (r: bool)
    ensures
        r == ends_with(name@, INDEX_SUFFIX@),
{
    let s = chars_of(name);
    let suffix = chars_of(INDEX_SUFFIX);
    if suffix.len() > s.len() {
        return false;
    }
    let off = s.len() - suffix.len();
    let mut i: usize = 0;
    while i < suffix.len()
        invariant
            s@ == name@,
            suffix@ == INDEX_SUFFIX@,
            off + suffix@.len() == s@.len() <= usize::MAX,
            i <= suffix@.len(),
            forall|j: int| 0 <= j < i ==> s@[off + j] == suffix@[j],
        decreases suffix.len() - i,
    {
        if s[off + i] != suffix[i] {
            assert(s@.subrange(off as int, s@.len() as int)[i as int] != suffix@[i as int]);
            return false;
        }
        i += 1;
    }
    assert(s@.subrange(off as int, s@.len() as int) =~= suffix@);
    true
}

} // verus!
