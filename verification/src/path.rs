//! File paths: bytes whose parts stand between slashes.

use vstd::prelude::*;
use vstd::string::*;

use crate::text;

verus! {

/// The byte between the parts of a path.
pub const SLASH: u8 = 47;

/// A dot.
pub const DOT: u8 = 46;

/// Where the pieces between slashes stand in the first `n` bytes.
pub open spec fn cuts(s: Seq<u8>, n: int) -> Seq<(int, int)>
    decreases n,
{
    if n <= 0 {
        seq![(0int, 0int)]
    } else {
        let before = cuts(s, n - 1);
        if s[n - 1] == SLASH {
            before.push((n, n))
        } else {
            before.drop_last().push((before.last().0, n))
        }
    }
}

/// The bytes of a span.
pub open spec fn part(s: Seq<u8>, span: (int, int)) -> Seq<u8> {
    s.subrange(span.0, span.1)
}

/// Whether a piece is a part of the path: an empty piece is not, nor a single
/// dot anywhere but at the start.
pub open spec fn counts(s: Seq<u8>, span: (int, int), index: int) -> bool {
    span.0 < span.1 && (part(s, span) != seq![DOT] || index == 0)
}

/// The pieces that are parts of the path.
pub open spec fn kept(s: Seq<u8>, pieces: Seq<(int, int)>) -> Seq<(int, int)>
    decreases pieces.len(),
{
    if pieces.len() == 0 {
        seq![]
    } else {
        let before = kept(s, pieces.drop_last());
        if counts(s, pieces.last(), pieces.len() - 1) {
            before.push(pieces.last())
        } else {
            before
        }
    }
}

/// Whether the path starts at the root.
pub open spec fn absolute(s: Seq<u8>) -> bool {
    s.len() > 0 && s[0] == SLASH
}

/// Where the parts of a path stand; the root's slash is a part.
pub open spec fn spans(s: Seq<u8>) -> Seq<(int, int)> {
    (if absolute(s) {
        seq![(0int, 1int)]
    } else {
        seq![]
    }) + kept(s, cuts(s, s.len() as int))
}

/// The parts of a path.
pub open spec fn parts(s: Seq<u8>) -> Seq<Seq<u8>> {
    spans(s).map_values(|span: (int, int)| part(s, span))
}

/// The path from part `n` on.
pub open spec fn rest(s: Seq<u8>, n: int) -> Seq<u8> {
    let ps = spans(s);
    if n < ps.len() {
        s.subrange(ps[n].0, ps.last().1)
    } else {
        seq![]
    }
}

/// The path before its last `n` parts.
pub open spec fn until(s: Seq<u8>, n: int) -> Seq<u8> {
    let ps = spans(s);
    if n < ps.len() {
        s.subrange(0, ps[ps.len() - 1 - n].1)
    } else {
        seq![]
    }
}

/// Whether the parts of one path begin with those of another.
pub open spec fn starts_with(s: Seq<u8>, base: Seq<u8>) -> bool {
    parts(base).is_prefix_of(parts(s))
}

/// What follows `base` in a path, if the path starts with it.
pub open spec fn stripped(s: Seq<u8>, base: Seq<u8>) -> Option<Seq<u8>> {
    if starts_with(s, base) {
        Some(rest(s, parts(base).len() as int))
    } else {
        None
    }
}

/// The last part, unless it is the root or leads elsewhere.
pub open spec fn name_of(s: Seq<u8>) -> Option<Seq<u8>> {
    let ps = parts(s);
    if ps.len() == 0 || ps.last() == seq![SLASH] || ps.last() == seq![DOT] || ps.last()
        == seq![DOT, DOT] {
        None
    } else {
        Some(ps.last())
    }
}

/// Where the last dot stands, or -1.
pub open spec fn last_dot(name: Seq<u8>) -> int
    decreases name.len(),
{
    if name.len() == 0 {
        -1
    } else if name.last() == DOT {
        name.len() - 1
    } else {
        last_dot(name.drop_last())
    }
}

/// What follows the last dot of `name`, unless that dot starts it.
pub open spec fn after_dot(name: Seq<u8>) -> Option<Seq<u8>> {
    if last_dot(name) > 0 {
        Some(name.skip(last_dot(name) + 1))
    } else {
        None
    }
}

/// The extension of the path's name.
pub open spec fn extension_of(s: Seq<u8>) -> Option<Seq<u8>> {
    match name_of(s) {
        Some(name) => after_dot(name),
        None => None,
    }
}

/// The path without its last part, unless that is the root.
pub open spec fn parent_of(s: Seq<u8>) -> Option<Seq<u8>> {
    let ps = parts(s);
    if ps.len() == 0 || ps.last() == seq![SLASH] {
        None
    } else {
        Some(until(s, 1))
    }
}

/// `base` followed by `s`, or `s` alone where it starts at the root.
pub open spec fn joined(base: Seq<u8>, s: Seq<u8>) -> Seq<u8> {
    if absolute(s) {
        s
    } else if base.len() > 0 && base.last() != SLASH {
        base.push(SLASH) + s
    } else {
        base + s
    }
}

/// Whether all parts are valid UTF-8.
pub open spec fn all_utf8(ps: Seq<Seq<u8>>) -> bool {
    forall|i: int| 0 <= i < ps.len() ==> vstd::utf8::valid_utf8(#[trigger] ps[i])
}

/// The texts that parts hold, where they are valid UTF-8.
pub open spec fn plain_texts(ps: Seq<Seq<u8>>) -> Seq<Seq<char>> {
    ps.map_values(|p: Seq<u8>| vstd::utf8::decode_utf8(p))
}

/// The text of each part, empty ones left out.
pub open spec fn segment_texts(ps: Seq<Seq<u8>>) -> Seq<Seq<char>>
    decreases ps.len(),
{
    if ps.len() == 0 {
        seq![]
    } else {
        let before = segment_texts(ps.drop_last());
        let last = text::shown_text(ps.last());
        if last.len() == 0 {
            before
        } else {
            before.push(last)
        }
    }
}

/// Parts that are valid UTF-8 are read as they are.
pub proof fn valid_parts_are_read_as_they_are(s: Seq<u8>)
    requires
        all_utf8(parts(s)),
    ensures
        segment_texts(parts(s)) == plain_texts(parts(s)),
{
    lemma_spans_in_order(s);
    assert forall|i: int| 0 <= i < parts(s).len() implies (#[trigger] parts(s)[i]).len() > 0 by {
        let sp = spans(s)[i];
        assert(0 <= sp.0 < sp.1 <= s.len());
    }
    lemma_plain_texts(parts(s));
}

/// Full parts that are valid UTF-8 are read as they are.
proof fn lemma_plain_texts(ps: Seq<Seq<u8>>)
    requires
        all_utf8(ps),
        forall|i: int| 0 <= i < ps.len() ==> (#[trigger] ps[i]).len() > 0,
    ensures
        segment_texts(ps) == plain_texts(ps),
    decreases ps.len(),
{
    if ps.len() > 0 {
        let last = ps.last();
        assert(last == ps[ps.len() - 1]);
        assert(vstd::utf8::valid_utf8(last));
        assert(vstd::utf8::decode_utf8(last).len() > 0);
        assert forall|i: int| 0 <= i < ps.drop_last().len() implies vstd::utf8::valid_utf8(
            #[trigger] ps.drop_last()[i],
        ) && ps.drop_last()[i].len() > 0 by {
            assert(ps.drop_last()[i] == ps[i]);
        }
        lemma_plain_texts(ps.drop_last());
        assert(plain_texts(ps) =~= plain_texts(ps.drop_last()).push(
            vstd::utf8::decode_utf8(last),
        ));
    } else {
        assert(plain_texts(ps) =~= seq![]);
    }
}

/// The spans as mathematical pairs.
pub open spec fn span_views(v: Seq<(usize, usize)>) -> Seq<(int, int)> {
    v.map_values(|p: (usize, usize)| (p.0 as int, p.1 as int))
}

/// Whether spans stand in order inside `n` bytes.
pub open spec fn in_order(ps: Seq<(int, int)>, n: int) -> bool {
    &&& forall|i: int| 0 <= i < ps.len() ==> 0 <= (#[trigger] ps[i]).0 < ps[i].1 <= n
    &&& forall|i: int, j: int|
        0 <= i <= j < ps.len() ==> (#[trigger] ps[i]).1 <= (#[trigger] ps[j]).1 && ps[i].0
            <= ps[j].0
}

proof fn lemma_cuts(s: Seq<u8>, n: int)
    requires
        0 <= n <= s.len(),
    ensures
        cuts(s, n).len() > 0,
        cuts(s, n).last().1 == n,
        0 <= cuts(s, n).last().0 <= n,
        absolute(s) && n >= 1 ==> cuts(s, n).last().0 >= 1,
        in_order(kept(s, cuts(s, n).drop_last()), n),
        forall|i: int|
            0 <= i < kept(s, cuts(s, n).drop_last()).len() ==> (#[trigger] kept(
                s,
                cuts(s, n).drop_last(),
            )[i]).1 <= cuts(s, n).last().0,
        absolute(s) ==> forall|i: int|
            0 <= i < kept(s, cuts(s, n).drop_last()).len() ==> (#[trigger] kept(
                s,
                cuts(s, n).drop_last(),
            )[i]).0 >= 1,
    decreases n,
{
    if n > 0 {
        lemma_cuts(s, n - 1);
        let before = cuts(s, n - 1);
        let now = cuts(s, n);
        if s[n - 1] == SLASH {
            assert(now.drop_last() =~= before);
            if absolute(s) && n == 1 {
                assert(before == seq![(0int, 0int)]);
                assert(before.drop_last() =~= seq![]);
            }
        } else {
            assert(now.drop_last() =~= before.drop_last());
        }
    } else {
        assert(cuts(s, n).drop_last() =~= seq![]);
    }
}

/// The parts of a path stand in order.
pub proof fn lemma_spans_in_order(s: Seq<u8>)
    ensures
        in_order(spans(s), s.len() as int),
{
    let n = s.len() as int;
    lemma_cuts(s, n);
    let all = cuts(s, n);
    let before = kept(s, all.drop_last());
    assert(in_order(kept(s, all), n));
}

/// A name as it stands between slashes: not empty, without a slash, and not a
/// single dot.
pub open spec fn is_name(e: Seq<u8>) -> bool {
    &&& e.len() > 0
    &&& forall|i: int| 0 <= i < e.len() ==> #[trigger] e[i] != 47
    &&& e != seq![46u8]
}

proof fn lemma_cuts_inside(s: Seq<u8>, n: int)
    requires
        0 <= n <= s.len(),
    ensures
        cuts(s, n).len() > 0,
        forall|k: int|
            0 <= k < cuts(s, n).len() ==> 0 <= (#[trigger] cuts(s, n)[k]).0 <= cuts(s, n)[k].1 <= n,
        cuts(s, n).last().1 == n,
    decreases n,
{
    if n > 0 {
        lemma_cuts_inside(s, n - 1);
        let before = cuts(s, n - 1);
        assert forall|k: int| 0 <= k < cuts(s, n).len() implies 0 <= (#[trigger] cuts(s, n)[k]).0
            <= cuts(s, n)[k].1 <= n by {
            if k < before.len() - 1 {
                assert(cuts(s, n)[k] == before[k]);
            } else if s[n - 1] == SLASH && k == before.len() - 1 {
                assert(cuts(s, n)[k] == before[k]);
            } else if s[n - 1] != SLASH {
                assert(before[before.len() - 1] == before.last());
            }
        }
    }
}

proof fn lemma_cuts_same(s: Seq<u8>, t: Seq<u8>, n: int)
    requires
        0 <= n <= s.len(),
        n <= t.len(),
        forall|i: int| 0 <= i < n ==> #[trigger] s[i] == t[i],
    ensures
        cuts(s, n) == cuts(t, n),
    decreases n,
{
    if n > 0 {
        lemma_cuts_same(s, t, n - 1);
        assert(s[n - 1] == t[n - 1]);
    }
}

proof fn lemma_kept_same(s: Seq<u8>, t: Seq<u8>, n: int, pieces: Seq<(int, int)>)
    requires
        0 <= n <= s.len(),
        n <= t.len(),
        forall|i: int| 0 <= i < n ==> #[trigger] s[i] == t[i],
        forall|k: int|
            0 <= k < pieces.len() ==> 0 <= (#[trigger] pieces[k]).0 <= pieces[k].1 <= n,
    ensures
        kept(s, pieces) == kept(t, pieces),
    decreases pieces.len(),
{
    if pieces.len() > 0 {
        let less = pieces.drop_last();
        let sp = pieces[pieces.len() - 1];
        assert forall|k: int| 0 <= k < less.len() implies 0 <= (#[trigger] less[k]).0 <= less[k].1
            <= n by {
            assert(less[k] == pieces[k]);
        }
        lemma_kept_same(s, t, n, less);
        assert(part(s, sp) =~= part(t, sp));
    }
}

/// A name at the end of the bytes is the last piece.
proof fn lemma_cuts_grow(s: Seq<u8>, n: int, k: int)
    requires
        0 <= n <= n + k <= s.len(),
        cuts(s, n).len() > 0,
        cuts(s, n).last() == (n, n),
        forall|i: int| n <= i < n + k ==> #[trigger] s[i] != 47,
    ensures
        cuts(s, n + k) == cuts(s, n).drop_last().push((n, n + k)),
    decreases k,
{
    if k > 0 {
        lemma_cuts_grow(s, n, k - 1);
        assert(s[n + k - 1] != 47);
        let before = cuts(s, n + k - 1);
        assert(before.drop_last() =~= cuts(s, n).drop_last());
    } else {
        assert(cuts(s, n).drop_last().push((n, n)) =~= cuts(s, n));
    }
}

/// The spans of a path that a name was put after.
#[verifier::rlimit(50)]
#[verifier::spinoff_prover]
proof fn lemma_joined_spans(base: Seq<u8>, e: Seq<u8>)
    requires
        base.len() > 0,
        is_name(e),
    ensures
        ({
            let s = joined(base, e);
            &&& s.len() > e.len()
            &&& spans(s) == spans(base).push((s.len() - e.len(), s.len() as int))
            &&& s.subrange(s.len() - e.len(), s.len() as int) == e
            &&& absolute(s) == absolute(base)
            &&& forall|i: int| 0 <= i < base.len() ==> #[trigger] s[i] == base[i]
        }),
{
    let s = joined(base, e);
    let n = base.len() as int;
    let at = s.len() - e.len();
    let span = (at, s.len() as int);
    assert(!absolute(e)) by {
        assert(e[0] != 47);
    }
    lemma_cuts_inside(base, n);
    lemma_cuts_same(s, base, n);
    let pieces = cuts(base, n);
    assert(s.subrange(at, s.len() as int) =~= e);
    assert forall|i: int| at <= i < s.len() implies #[trigger] s[i] != 47 by {
        assert(e[i - at] != 47);
    }
    if base.last() != SLASH {
        assert(s[n] == SLASH);
        assert(cuts(s, n + 1) == pieces.push((n + 1, n + 1)));
        lemma_cuts_grow(s, n + 1, e.len() as int);
        assert(pieces.push((n + 1, n + 1)).drop_last() =~= pieces);
        lemma_joined_kept(base, s, pieces, e, at);
        assert(kept(s, cuts(s, s.len() as int)) == kept(base, pieces).push(span));
    } else {
        assert(base[n - 1] == SLASH);
        let before = cuts(base, n - 1);
        lemma_cuts_inside(base, n - 1);
        assert(pieces == before.push((n, n)));
        lemma_cuts_grow(s, n, e.len() as int);
        assert(pieces.drop_last() =~= before);
        lemma_joined_kept(base, s, before, e, at);
        assert(kept(base, pieces) == kept(base, before)) by {
            assert(pieces.last() == (n, n));
        }
        assert(kept(s, cuts(s, s.len() as int)) == kept(base, pieces).push(span));
    }
    assert(spans(s) =~= spans(base).push(span));
}

proof fn lemma_joined_kept(base: Seq<u8>, s: Seq<u8>, pieces: Seq<(int, int)>, e: Seq<u8>, at: int)
    requires
        base.len() <= at,
        s.len() == at + e.len(),
        s.subrange(at, s.len() as int) == e,
        is_name(e),
        forall|i: int| 0 <= i < base.len() ==> #[trigger] s[i] == base[i],
        forall|k: int|
            0 <= k < pieces.len() ==> 0 <= (#[trigger] pieces[k]).0 <= pieces[k].1 <= base.len(),
    ensures
        kept(s, pieces.push((at, s.len() as int))) == kept(base, pieces).push((at, s.len() as int)),
{
    let all = pieces.push((at, s.len() as int));
    lemma_kept_same(s, base, base.len() as int, pieces);
    assert(all.drop_last() =~= pieces);
    assert(counts(s, all.last(), all.len() - 1));
}

/// A path that a name is put after has that name as one part more; the name is
/// the path's name, and taking the path off leaves it.
pub proof fn joining_adds_a_part(base: Seq<u8>, e: Seq<u8>)
    requires
        base.len() > 0,
        is_name(e),
    ensures
        parts(joined(base, e)) == parts(base).push(e),
        e != seq![46u8, 46u8] ==> name_of(joined(base, e)) == Some(e),
        stripped(joined(base, e), base) == Some(e),
{
    let s = joined(base, e);
    lemma_joined_spans(base, e);
    lemma_spans_in_order(base);
    assert(parts(s) =~= parts(base).push(e)) by {
        assert forall|k: int| 0 <= k < parts(base).len() implies parts(s)[k] == parts(base)[k] by {
            let sp = spans(base)[k];
            assert(spans(s)[k] == sp);
            assert(part(s, sp) =~= part(base, sp));
        }
    }
    assert(parts(base).is_prefix_of(parts(s)));
    assert(parts(s).last() == e);
    assert(e != seq![47u8]) by {
        assert(e[0] != 47);
    }
    assert(spans(s)[parts(base).len() as int] == (s.len() - e.len(), s.len() as int));
}

/// A name alone is its only part, and the root is a part of its own.
pub proof fn a_name_is_its_part(e: Seq<u8>)
    requires
        is_name(e),
    ensures
        parts(e) == seq![e],
        parts(seq![47u8]) == seq![seq![47u8]],
        joined(seq![], e) == e,
{
    let n = e.len() as int;
    assert(cuts(e, 0) == seq![(0int, 0int)]);
    lemma_cuts_grow(e, 0, n);
    assert(cuts(e, 0).drop_last().push((0int, n)) =~= seq![(0int, n)]);
    assert(seq![(0int, n)].drop_last() =~= seq![]);
    assert(counts(e, (0int, n), 0)) by {
        assert(part(e, (0int, n)) =~= e);
    }
    assert(seq![(0int, n)].last() == (0int, n));
    assert(kept(e, seq![]) =~= seq![]);
    assert(kept(e, seq![(0int, n)]) =~= seq![(0int, n)]);
    assert(e[0] != 47);
    assert(e.subrange(0, n) =~= e);
    assert(spans(e) =~= seq![(0int, n)]);
    assert(parts(e) =~= seq![e]);
    let r = seq![47u8];
    reveal_with_fuel(cuts, 3);
    reveal_with_fuel(kept, 3);
    assert(cuts(r, 1) =~= seq![(0int, 0int), (1int, 1int)]);
    assert(cuts(r, 1).drop_last() =~= seq![(0int, 0int)]);
    assert(cuts(r, 1).drop_last().drop_last() =~= seq![]);
    assert(kept(r, cuts(r, 1)) =~= seq![]);
    assert(spans(r) =~= seq![(0int, 1int)]);
    assert(r.subrange(0, 1) =~= r);
    assert(parts(r) =~= seq![r]);
    assert(Seq::<u8>::empty() + e =~= e);
}

/// Whether a path ends with its last part.
pub open spec fn ends_in_part(s: Seq<u8>) -> bool {
    spans(s).len() > 0 && spans(s).last().1 == s.len()
}

/// A path that a name is put after ends in a part; without that part it is the
/// path from before.
pub proof fn parents_hold_their_names(base: Seq<u8>, e: Seq<u8>)
    requires
        base.len() > 0,
        is_name(e),
    ensures
        ends_in_part(joined(base, e)),
        ends_in_part(base) ==> parent_of(joined(base, e)) == Some(base),
{
    let s = joined(base, e);
    lemma_joined_spans(base, e);
    joining_adds_a_part(base, e);
    assert(e != seq![47u8]) by {
        assert(e[0] != 47);
    }
    if ends_in_part(base) {
        assert(spans(s)[spans(s).len() - 2] == spans(base).last());
        assert(s.subrange(0, base.len() as int) =~= base);
    }
}

/// What follows a folder in a path goes on as the path does.
pub proof fn stripping_goes_on(p: Seq<u8>, root: Seq<u8>, e: Seq<u8>)
    requires
        starts_with(p, root),
        parts(root).len() < parts(p).len(),
        ends_in_part(p),
        is_name(e),
    ensures
        starts_with(joined(p, e), root),
        stripped(joined(p, e), root) == Some(joined(stripped(p, root)->0, e)),
        stripped(p, root)->0.len() > 0,
{
    let s = joined(p, e);
    let n = parts(root).len() as int;
    lemma_spans_in_order(p);
    assert(p.len() > 0) by {
        assert(spans(p).last() == spans(p)[spans(p).len() - 1]);
    }
    lemma_joined_spans(p, e);
    joining_adds_a_part(p, e);
    assert forall|k: int| 0 <= k < n implies parts(root)[k] == parts(s)[k] by {
        assert(parts(root)[k] == parts(p)[k]);
    }
    let from = spans(p)[n].0;
    assert(spans(p)[n].1 <= p.len());
    assert(spans(s)[n] == spans(p)[n]);
    let r = p.subrange(from, p.len() as int);
    assert(stripped(p, root) == Some(r));
    assert(r.len() > 0 && r.last() == p.last());
    assert(!absolute(e)) by {
        assert(e[0] != 47);
    }
    assert(s.subrange(from, s.len() as int) =~= joined(r, e));
}

/// The extension of a name is what follows its last dot, if anything stands
/// before that dot.
pub proof fn extensions_follow_the_last_dot(stem: Seq<u8>, ext: Seq<u8>)
    requires
        forall|i: int| 0 <= i < ext.len() ==> #[trigger] ext[i] != 46,
    ensures
        after_dot(ext) is None,
        after_dot(stem.push(46) + ext) == if stem.len() > 0 {
            Some(ext)
        } else {
            None
        },
{
    lemma_no_dot(ext);
    lemma_last_dot(stem, ext);
    let name = stem.push(46) + ext;
    assert(name.skip(stem.len() as int + 1) =~= ext);
}

proof fn lemma_no_dot(e: Seq<u8>)
    requires
        forall|i: int| 0 <= i < e.len() ==> #[trigger] e[i] != 46,
    ensures
        last_dot(e) == -1,
    decreases e.len(),
{
    if e.len() > 0 {
        assert(e[e.len() - 1] != 46);
        lemma_no_dot(e.drop_last());
    }
}

proof fn lemma_last_dot(stem: Seq<u8>, ext: Seq<u8>)
    requires
        forall|i: int| 0 <= i < ext.len() ==> #[trigger] ext[i] != 46,
    ensures
        last_dot(stem.push(46) + ext) == stem.len(),
    decreases ext.len(),
{
    let name = stem.push(46) + ext;
    if ext.len() > 0 {
        assert(ext[ext.len() - 1] != 46);
        lemma_last_dot(stem, ext.drop_last());
        assert(name.drop_last() =~= stem.push(46) + ext.drop_last());
    } else {
        assert(name =~= stem.push(46));
    }
}

/// Where the parts of a path stand.
fn find_parts(s: &[u8]) -> (r: Vec<(usize, usize)>)
    ensures
        span_views(r@) == spans(s@),
{
    let mut out: Vec<(usize, usize)> = Vec::new();
    let n: usize = s.len();
    if n > 0 && s[0] == SLASH {
        out.push((0, 1));
    }
    let ghost root = span_views(out@);
    let mut start: usize = 0;
    let mut first = true;
    let mut i: usize = 0;
    proof {
        assert(cuts(s@, 0).drop_last() =~= seq![]);
    }
    while i < n
        invariant
            start <= i <= n == s@.len(),
            cuts(s@, i as int).last() == (start as int, i as int),
            cuts(s@, i as int).len() > 0,
            first == (cuts(s@, i as int).len() == 1),
            span_views(out@) =~= root + kept(s@, cuts(s@, i as int).drop_last()),
        decreases n - i,
    {
        let ghost pieces = cuts(s@, i as int);
        if s[i] == SLASH {
            proof {
                assert(cuts(s@, i + 1).drop_last() =~= pieces);
            }
            let ghost so_far = out@;
            if part_counts(s, start, i, first) {
                out.push((start, i));
                proof {
                    assert(span_views(out@) =~= span_views(so_far).push(pieces.last()));
                }
            }
            proof {
                assert(counts(s@, pieces.last(), pieces.len() - 1) == (out@ != so_far));
            }
            first = false;
            start = i + 1;
        } else {
            proof {
                assert(cuts(s@, i + 1).drop_last() =~= pieces.drop_last());
            }
        }
        i = i + 1;
    }
    let ghost so_far = out@;
    let ghost pieces = cuts(s@, n as int);
    if part_counts(s, start, n, first) {
        out.push((start, n));
        proof {
            assert(span_views(out@) =~= span_views(so_far).push(pieces.last()));
        }
    }
    proof {
        assert(counts(s@, pieces.last(), pieces.len() - 1) == (out@ != so_far));
        assert(span_views(out@) =~= root + kept(s@, cuts(s@, n as int)));
        assert(root =~= (if absolute(s@) {
            seq![(0int, 1int)]
        } else {
            seq![]
        }));
    }
    out
}

/// Whether the piece from `a` to `b` is a part of the path.
fn part_counts(s: &[u8], a: usize, b: usize, first: bool) -> (r: bool)
    requires
        a <= b <= s@.len(),
    ensures
        forall|index: int|
            first == (index == 0) ==> r == #[trigger] counts(s@, (a as int, b as int), index),
{
    if a >= b {
        return false;
    }
    let dot = b - a == 1 && s[a] == DOT;
    proof {
        if dot {
            assert(s@.subrange(a as int, b as int) =~= seq![DOT]);
        } else if b - a == 1 {
            assert(s@.subrange(a as int, b as int)[0] != DOT);
        } else {
            assert(s@.subrange(a as int, b as int).len() != 1);
        }
    }
    !dot || first
}

/// The part of a path at a position.
fn part_at<'a>(s: &'a [u8], ps: &Vec<(usize, usize)>, i: usize) -> (r: &'a [u8])
    requires
        span_views(ps@) == spans(s@),
        i < ps@.len(),
    ensures
        r@ == parts(s@)[i as int],
        parts(s@).len() == ps@.len(),
{
    proof {
        lemma_spans_in_order(s@);
        assert(span_views(ps@)[i as int] == (ps@[i as int].0 as int, ps@[i as int].1 as int));
        assert(0 <= spans(s@)[i as int].0 < spans(s@)[i as int].1 <= s@.len());
    }
    vstd::slice::slice_subrange(s, ps[i].0, ps[i].1)
}

/// A file path.
#[derive(Debug)]
pub struct FilePath {
    pub bytes: Vec<u8>,
}

impl View for FilePath {
    type V = Seq<u8>;

    open spec fn view(&self) -> Seq<u8> {
        self.bytes@
    }
}

impl Clone for FilePath {
    fn clone(&self) -> (r: FilePath)
        ensures
            r@ == self@,
    {
        FilePath { bytes: text::copy_bytes(self.bytes.as_slice()) }
    }
}

impl FilePath {
    /// The path that a text spells.
    pub fn from_text(s: &str) -> (r: FilePath)
        ensures
            r@ == vstd::utf8::encode_utf8(s@),
    {
        FilePath { bytes: text::copy_bytes(s.as_bytes()) }
    }

    /// Whether two paths have the same parts.
    pub fn same(&self, other: &FilePath) -> (r: bool)
        ensures
            r == (parts(self@) == parts(other@)),
    {
        match self.skip_prefix(other) {
            Some(n) => {
                let ps = find_parts(self.bytes.as_slice());
                proof {
                    assert(parts(self@).len() == span_views(ps@).len());
                    if n == ps@.len() {
                        assert(parts(self@) =~= parts(other@));
                    }
                }
                n == ps.len()
            },
            None => false,
        }
    }

    /// How many parts `base` has, if this path starts with them.
    fn skip_prefix(&self, base: &FilePath) -> (r: Option<usize>)
        ensures
            r is Some <==> starts_with(self@, base@),
            r is Some ==> r->0 == parts(base@).len(),
    {
        let s = self.bytes.as_slice();
        let t = base.bytes.as_slice();
        let ps = find_parts(s);
        let qs = find_parts(t);
        proof {
            assert(span_views(ps@).len() == ps@.len());
            assert(span_views(qs@).len() == qs@.len());
        }
        if qs.len() > ps.len() {
            return None;
        }
        let mut i: usize = 0;
        while i < qs.len()
            invariant
                i <= qs@.len() <= ps@.len(),
                s@ == self@,
                t@ == base@,
                span_views(ps@) == spans(s@),
                span_views(qs@) == spans(t@),
                parts(s@).len() == ps@.len(),
                parts(t@).len() == qs@.len(),
                forall|k: int| 0 <= k < i ==> parts(s@)[k] == parts(t@)[k],
            decreases qs@.len() - i,
        {
            if !text::same_bytes(part_at(s, &ps, i), part_at(t, &qs, i)) {
                proof {
                    assert(parts(s@)[i as int] != parts(t@)[i as int]);
                }
                return None;
            }
            i = i + 1;
        }
        proof {
            assert(parts(t@) =~= parts(s@).take(parts(t@).len() as int));
        }
        Some(i)
    }

    /// What follows `base`, if this path starts with it.
    pub fn strip_prefix(&self, base: &FilePath) -> (r: Option<FilePath>)
        ensures
            r is Some <==> stripped(self@, base@) is Some,
            r is Some ==> r->0@ == stripped(self@, base@)->0,
    {
        match self.skip_prefix(base) {
            Some(n) => {
                let s = self.bytes.as_slice();
                let ps = find_parts(s);
                proof {
                    lemma_spans_in_order(s@);
                    assert(span_views(ps@).len() == ps@.len());
                }
                if n < ps.len() {
                    proof {
                        assert(spans(s@)[n as int] == span_views(ps@)[n as int]);
                        assert(spans(s@).last() == span_views(ps@).last());
                    }
                    let from: usize = ps[n].0;
                    let to: usize = ps[ps.len() - 1].1;
                    Some(FilePath { bytes: text::copy_bytes(vstd::slice::slice_subrange(s, from, to)) })
                } else {
                    Some(FilePath { bytes: Vec::new() })
                }
            },
            None => None,
        }
    }

    /// The last part, unless it is the root or leads elsewhere.
    pub fn file_name(&self) -> (r: Option<&[u8]>)
        ensures
            r is Some <==> name_of(self@) is Some,
            r is Some ==> r->0@ == name_of(self@)->0,
    {
        let s = self.bytes.as_slice();
        let ps = find_parts(s);
        proof {
            lemma_spans_in_order(s@);
            assert(span_views(ps@).len() == ps@.len());
            assert(parts(s@).len() == ps@.len());
        }
        if ps.len() == 0 {
            return None;
        }
        let (a, b) = ps[ps.len() - 1];
        proof {
            assert(spans(s@).last() == span_views(ps@).last());
            assert(parts(s@).last() == part(s@, (a as int, b as int)));
        }
        let last = vstd::slice::slice_subrange(s, a, b);
        if is_one(last, SLASH) || is_one(last, DOT) || (last.len() == 2 && last[0] == DOT && last[1]
            == DOT) {
            proof {
                if last@.len() == 2 && last@[0] == DOT && last@[1] == DOT {
                    assert(last@ =~= seq![DOT, DOT]);
                }
            }
            return None;
        }
        Some(last)
    }

    /// The extension of the name.
    pub fn extension(&self) -> (r: Option<&[u8]>)
        ensures
            r is Some <==> extension_of(self@) is Some,
            r is Some ==> r->0@ == extension_of(self@)->0,
    {
        match self.file_name() {
            Some(name) => {
                let mut i: usize = name.len();
                proof {
                    assert(name@.take(name@.len() as int) =~= name@);
                }
                while i > 0
                    invariant
                        i <= name@.len(),
                        name_of(self@) == Some(name@),
                        last_dot(name@) == last_dot(name@.take(i as int)),
                    decreases i,
                {
                    proof {
                        assert(name@.take(i as int).drop_last() =~= name@.take(i - 1));
                    }
                    if name[i - 1] == DOT {
                        if i == 1 {
                            return None;
                        }
                        return Some(vstd::slice::slice_subrange(name, i, name.len()));
                    }
                    i = i - 1;
                }
                None
            },
            None => None,
        }
    }

    /// The path without its last part, unless that is the root.
    pub fn parent(&self) -> (r: Option<FilePath>)
        ensures
            r is Some <==> parent_of(self@) is Some,
            r is Some ==> r->0@ == parent_of(self@)->0,
    {
        let s = self.bytes.as_slice();
        let ps = find_parts(s);
        proof {
            lemma_spans_in_order(s@);
            assert(span_views(ps@).len() == ps@.len());
            assert(parts(s@).len() == ps@.len());
        }
        let n: usize = ps.len();
        if n == 0 {
            return None;
        }
        let (a, b) = ps[n - 1];
        proof {
            assert(spans(s@).last() == span_views(ps@).last());
            assert(parts(s@).last() == part(s@, (a as int, b as int)));
        }
        if is_one(vstd::slice::slice_subrange(s, a, b), SLASH) {
            return None;
        }
        if n == 1 {
            return Some(FilePath { bytes: Vec::new() });
        }
        proof {
            assert(spans(s@)[n - 2] == span_views(ps@)[n - 2]);
        }
        let to: usize = ps[n - 2].1;
        Some(FilePath { bytes: text::copy_bytes(vstd::slice::slice_subrange(s, 0, to)) })
    }

    /// This path followed by `s`, or `s` alone where it starts at the root.
    pub fn join(&self, s: &[u8]) -> (r: FilePath)
        ensures
            r@ == joined(self@, s@),
    {
        if s.len() > 0 && s[0] == SLASH {
            return FilePath { bytes: text::copy_bytes(s) };
        }
        let mut bytes = text::copy_bytes(self.bytes.as_slice());
        let n: usize = bytes.len();
        if n > 0 && bytes[n - 1] != SLASH {
            bytes.push(SLASH);
        }
        bytes.extend_from_slice(s);
        proof {
            assert(bytes@ =~= joined(self@, s@));
        }
        FilePath { bytes }
    }

    /// How many parts there are, and the first one.
    pub fn first_part(&self) -> (r: (usize, &[u8]))
        ensures
            r.0 == parts(self@).len(),
            r.0 > 0 ==> r.1@ == parts(self@)[0],
    {
        let s = self.bytes.as_slice();
        let ps = find_parts(s);
        proof {
            assert(span_views(ps@).len() == ps@.len());
        }
        if ps.len() == 0 {
            return (0, s);
        }
        (ps.len(), part_at(s, &ps, 0))
    }

    /// Copies of all parts.
    pub fn all_parts(&self) -> (r: Vec<Vec<u8>>)
        ensures
            r@.len() == parts(self@).len(),
            forall|i: int| 0 <= i < r@.len() ==> (#[trigger] r@[i])@ == parts(self@)[i],
    {
        let s = self.bytes.as_slice();
        let ps = find_parts(s);
        proof {
            assert(span_views(ps@).len() == ps@.len());
        }
        let mut out: Vec<Vec<u8>> = Vec::new();
        let mut i: usize = 0;
        while i < ps.len()
            invariant
                i <= ps@.len() == parts(s@).len(),
                s@ == self@,
                span_views(ps@) == spans(s@),
                out@.len() == i,
                forall|k: int| 0 <= k < i ==> (#[trigger] out@[k])@ == parts(s@)[k],
            decreases ps@.len() - i,
        {
            out.push(text::copy_bytes(part_at(s, &ps, i)));
            i = i + 1;
        }
        out
    }

    /// The text of each part, empty ones left out.
    pub fn segments(&self) -> (r: Vec<String>)
        ensures
            r@.len() == segment_texts(parts(self@)).len(),
            forall|i: int| 0 <= i < r@.len() ==> (#[trigger] r@[i])@ == segment_texts(parts(self@))[i],
    {
        let s = self.bytes.as_slice();
        let ps = find_parts(s);
        proof {
            lemma_spans_in_order(s@);
            assert(span_views(ps@).len() == ps@.len());
            assert(parts(s@).len() == ps@.len());
            assert(parts(s@).take(0) =~= seq![]);
        }
        let mut out: Vec<String> = Vec::new();
        let mut i: usize = 0;
        while i < ps.len()
            invariant
                i <= ps@.len(),
                s@ == self@,
                parts(s@).len() == ps@.len(),
                span_views(ps@) == spans(s@),
                in_order(spans(s@), s@.len() as int),
                out@.len() == segment_texts(parts(s@).take(i as int)).len(),
                forall|k: int|
                    0 <= k < out@.len() ==> (#[trigger] out@[k])@ == segment_texts(
                        parts(s@).take(i as int),
                    )[k],
            decreases ps@.len() - i,
        {
            let (a, b) = ps[i];
            proof {
                assert(spans(s@)[i as int] == span_views(ps@)[i as int]);
                assert(parts(s@).take(i + 1).drop_last() =~= parts(s@).take(i as int));
                assert(parts(s@).take(i + 1).last() == part(s@, (a as int, b as int)));
            }
            let seg = text::lossy(vstd::slice::slice_subrange(s, a, b));
            if seg.as_str().unicode_len() > 0 {
                out.push(seg);
            }
            i = i + 1;
        }
        proof {
            assert(parts(s@).take(ps@.len() as int) =~= parts(s@));
        }
        out
    }

    /// The text of the whole path.
    pub fn display(&self) -> (r: String)
        ensures
            r@ == text::shown_text(self@),
    {
        text::lossy(self.bytes.as_slice())
    }
}

/// Whether a run of bytes is this one byte.
fn is_one(s: &[u8], c: u8) -> (r: bool)
    ensures
        r == (s@ == seq![c]),
{
    let r = s.len() == 1 && s[0] == c;
    proof {
        if r {
            assert(s@ =~= seq![c]);
        }
    }
    r
}

/// A slash at the end of a path adds no part, and neither does a dot after it;
/// a dot is a part of its own where nothing stands before it.
pub proof fn dots_and_slashes_add_nothing(base: Seq<u8>)
    requires
        base.len() > 0,
        base.last() != 47,
    ensures
        parts(base.push(47)) == parts(base),
        parts(base.push(47).push(46)) == parts(base),
        parts(seq![46u8]) == seq![seq![46u8]],
{
    let n = base.len() as int;
    let s = base.push(47);
    let t = s.push(46);
    let pieces = cuts(base, n);
    lemma_cuts_inside(base, n);
    lemma_cuts_same(s, base, n);
    lemma_cuts_same(t, base, n);
    lemma_kept_same(s, base, n, pieces);
    lemma_kept_same(t, base, n, pieces);
    lemma_spans_in_order(base);
    assert(s[n] == 47 && t[n] == 47 && t[n + 1] == 46);
    let more = pieces.push((n + 1, n + 1));
    assert(cuts(s, n + 1) == more);
    assert(more.drop_last() =~= pieces && more.last() == (n + 1, n + 1));
    assert(kept(s, more) == kept(base, pieces));
    assert(spans(s) =~= spans(base));
    assert(cuts(t, n + 1) == more);
    let dotted = pieces.push((n + 1, n + 2));
    assert(cuts(t, n + 2) == dotted);
    assert(dotted.drop_last() =~= pieces && dotted.last() == (n + 1, n + 2));
    assert(t.subrange(n + 1, n + 2) =~= seq![46u8]);
    assert(pieces.len() > 0);
    assert(kept(t, dotted) == kept(base, pieces));
    assert(spans(t) =~= spans(base));
    assert forall|k: int| 0 <= k < spans(base).len() implies part(s, #[trigger] spans(base)[k])
        == part(base, spans(base)[k]) && part(t, spans(base)[k]) == part(base, spans(base)[k]) by {
        let sp = spans(base)[k];
        assert(part(s, sp) =~= part(base, sp));
        assert(part(t, sp) =~= part(base, sp));
    }
    assert(parts(s) =~= parts(base));
    assert(parts(t) =~= parts(base));
    let d = seq![46u8];
    reveal_with_fuel(cuts, 3);
    reveal_with_fuel(kept, 3);
    assert(d[0] == 46);
    assert(cuts(d, 1) =~= seq![(0int, 1int)]);
    assert(cuts(d, 1).drop_last() =~= seq![]);
    assert(kept(d, Seq::<(int, int)>::empty()) =~= seq![]);
    assert(cuts(d, 1).last() == (0int, 1int));
    assert(kept(d, cuts(d, 1)) =~= seq![(0int, 1int)]);
    assert(spans(d) =~= seq![(0int, 1int)]);
    assert(d.subrange(0, 1) =~= d);
    assert(parts(d) =~= seq![d]);
}

} // verus!
