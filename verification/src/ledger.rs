//! What was counted, by file and by language.

use vstd::prelude::*;

use crate::lang::Lang;

verus! {

/// What was counted of a file.
#[derive(Debug, Clone, Copy)]
pub struct FileRecord {
    pub lang: Lang,
    pub lines: u64,
    pub bytes: u64,
}

/// What was counted of a language.
#[derive(Debug, Clone, Copy, PartialEq, Eq, Structural)]
pub struct LangStats {
    pub files: u64,
    pub lines: u64,
    pub bytes: u64,
}

/// The sum of two counts of files, lines and bytes.
pub open spec fn plus(a: (int, int, int), b: (int, int, int)) -> (int, int, int) {
    (a.0 + b.0, a.1 + b.1, a.2 + b.2)
}

/// Whether no part of a count is more than that of another.
pub open spec fn at_most(a: (int, int, int), b: (int, int, int)) -> bool {
    a.0 <= b.0 && a.1 <= b.1 && a.2 <= b.2
}

/// What a file adds to the count of a language.
pub open spec fn share(r: FileRecord, lang: Seq<char>) -> (int, int, int) {
    if r.lang.name() == lang {
        (1, r.lines as int, r.bytes as int)
    } else {
        (0, 0, 0)
    }
}

/// What the files of a language add up to.
pub open spec fn shares(files: Map<Seq<Seq<u8>>, FileRecord>, lang: Seq<char>) -> (int, int, int)
    decreases files.dom().len(),
{
    if files.dom().finite() && files.dom().len() > 0 {
        let k = files.dom().choose();
        plus(share(files[k], lang), shares(files.remove(k), lang))
    } else {
        (0, 0, 0)
    }
}

proof fn lemma_shares_remove(
    files: Map<Seq<Seq<u8>>, FileRecord>,
    k: Seq<Seq<u8>>,
    lang: Seq<char>,
)
    requires
        files.dom().finite(),
        files.contains_key(k),
    ensures
        shares(files, lang) == plus(share(files[k], lang), shares(files.remove(k), lang)),
    decreases files.dom().len(),
{
    let c = files.dom().choose();
    if c != k {
        let less = files.remove(c);
        lemma_shares_remove(less, k, lang);
        assert(less.remove(k) =~= files.remove(k).remove(c));
        lemma_shares_remove(files.remove(k), c, lang);
    }
}

proof fn lemma_shares_bounds(files: Map<Seq<Seq<u8>>, FileRecord>, lang: Seq<char>)
    ensures
        at_most((0, 0, 0), shares(files, lang)),
    decreases files.dom().len(),
{
    if files.dom().finite() && files.dom().len() > 0 {
        lemma_shares_bounds(files.remove(files.dom().choose()), lang);
    }
}

/// What was counted of each language, with its name.
pub open spec fn stats_model(v: Seq<(Lang, LangStats)>) -> Seq<(Seq<char>, LangStats)> {
    v.map_values(|e: (Lang, LangStats)| (e.0.name(), e.1))
}

/// A count as numbers.
pub open spec fn count_of(s: LangStats) -> (int, int, int) {
    (s.files as int, s.lines as int, s.bytes as int)
}

/// The files, lines and bytes of all languages.
pub open spec fn stats_sum(s: Seq<(Seq<char>, LangStats)>) -> (int, int, int)
    decreases s.len(),
{
    if s.len() == 0 {
        (0, 0, 0)
    } else {
        plus(stats_sum(s.drop_last()), count_of(s.last().1))
    }
}

/// The place where a language is counted, from `i` on, or the end.
pub open spec fn stat_at(s: Seq<(Seq<char>, LangStats)>, lang: Seq<char>, i: int) -> int
    decreases s.len() - i,
{
    if i >= s.len() || s[i].0 == lang {
        i
    } else {
        stat_at(s, lang, i + 1)
    }
}

/// What was counted of one language.
pub open spec fn stat_of(s: Seq<(Seq<char>, LangStats)>, lang: Seq<char>) -> (int, int, int) {
    let i = stat_at(s, lang, 0);
    if i < s.len() {
        count_of(s[i].1)
    } else {
        (0, 0, 0)
    }
}

/// Whether each language is listed once.
pub open spec fn each_once(s: Seq<(Seq<char>, LangStats)>) -> bool {
    forall|i: int, j: int|
        0 <= i < j < s.len() ==> (#[trigger] s[i]).0 != (#[trigger] s[j]).0
}

/// Whether something was counted of each language that is listed.
pub open spec fn none_empty(s: Seq<(Seq<char>, LangStats)>) -> bool {
    forall|i: int| 0 <= i < s.len() ==> count_of((#[trigger] s[i]).1) != (0int, 0int, 0int)
}

/// Whether every file is in the count of its language.
pub open spec fn covered(
    s: Seq<(Seq<char>, LangStats)>,
    files: Map<Seq<Seq<u8>>, FileRecord>,
) -> bool {
    forall|lang: Seq<char>| at_most(#[trigger] shares(files, lang), stat_of(s, lang))
}

/// Statistics with one more file.
pub open spec fn stat_counted(s: Seq<(Seq<char>, LangStats)>, r: FileRecord) -> Seq<
    (Seq<char>, LangStats),
> {
    let lang = r.lang.name();
    let i = stat_at(s, lang, 0);
    if i < s.len() {
        let e = s[i].1;
        s.update(
            i,
            (
                lang,
                LangStats {
                    files: (e.files + 1) as u64,
                    lines: (e.lines + r.lines) as u64,
                    bytes: (e.bytes + r.bytes) as u64,
                },
            ),
        )
    } else {
        s.push((lang, LangStats { files: 1, lines: r.lines, bytes: r.bytes }))
    }
}

/// Statistics with one file less. A language of which nothing is left goes.
pub open spec fn stat_uncounted(s: Seq<(Seq<char>, LangStats)>, r: FileRecord) -> Seq<
    (Seq<char>, LangStats),
> {
    let i = stat_at(s, r.lang.name(), 0);
    if i < s.len() {
        let e = s[i].1;
        let less = LangStats {
            files: (e.files - 1) as u64,
            lines: (e.lines - r.lines) as u64,
            bytes: (e.bytes - r.bytes) as u64,
        };
        if less.files == 0 && less.lines == 0 && less.bytes == 0 {
            s.remove(i)
        } else {
            s.update(i, (r.lang.name(), less))
        }
    } else {
        s
    }
}

pub proof fn lemma_stats_sum_update(
    s: Seq<(Seq<char>, LangStats)>,
    i: int,
    e: (Seq<char>, LangStats),
)
    requires
        0 <= i < s.len(),
    ensures
        plus(stats_sum(s.update(i, e)), count_of(s[i].1)) == plus(stats_sum(s), count_of(e.1)),
    decreases s.len(),
{
    let new = s.update(i, e);
    if i == s.len() - 1 {
        assert(new.drop_last() =~= s.drop_last());
    } else {
        assert(new.drop_last() =~= s.drop_last().update(i, e));
        lemma_stats_sum_update(s.drop_last(), i, e);
    }
}

proof fn lemma_stats_sum_remove(s: Seq<(Seq<char>, LangStats)>, i: int)
    requires
        0 <= i < s.len(),
    ensures
        plus(stats_sum(s.remove(i)), count_of(s[i].1)) == stats_sum(s),
    decreases s.len(),
{
    if i == s.len() - 1 {
        assert(s.remove(i) =~= s.drop_last());
    } else {
        assert(s.remove(i).drop_last() =~= s.drop_last().remove(i));
        assert(s.remove(i).last() == s.last());
        lemma_stats_sum_remove(s.drop_last(), i);
    }
}

pub proof fn lemma_stats_sum_bounds(s: Seq<(Seq<char>, LangStats)>)
    ensures
        at_most((0, 0, 0), stats_sum(s)),
        forall|i: int|
            0 <= i < s.len() ==> at_most(count_of((#[trigger] s[i]).1), stats_sum(s)),
    decreases s.len(),
{
    if s.len() > 0 {
        lemma_stats_sum_bounds(s.drop_last());
        assert forall|i: int| 0 <= i < s.len() implies at_most(
            count_of((#[trigger] s[i]).1),
            stats_sum(s),
        ) by {
            if i < s.len() - 1 {
                assert(s[i] == s.drop_last()[i]);
            }
        }
    }
}

pub proof fn lemma_stat_at(s: Seq<(Seq<char>, LangStats)>, lang: Seq<char>, i: int)
    requires
        0 <= i <= s.len(),
    ensures
        i <= stat_at(s, lang, i) <= s.len(),
        stat_at(s, lang, i) < s.len() ==> s[stat_at(s, lang, i)].0 == lang,
        forall|k: int| i <= k < stat_at(s, lang, i) ==> (#[trigger] s[k]).0 != lang,
    decreases s.len() - i,
{
    if i < s.len() && s[i].0 != lang {
        lemma_stat_at(s, lang, i + 1);
    }
}

/// Counting a file adds it to its language and to the sum, and to nothing else.
pub proof fn lemma_stat_counted(s: Seq<(Seq<char>, LangStats)>, r: FileRecord)
    requires
        stats_sum(s).0 < u64::MAX,
        stats_sum(s).1 + r.lines <= u64::MAX,
        stats_sum(s).2 + r.bytes <= u64::MAX,
    ensures
        stats_sum(stat_counted(s, r)) == plus(stats_sum(s), share(r, r.lang.name())),
        each_once(s) ==> each_once(stat_counted(s, r)),
        none_empty(s) ==> none_empty(stat_counted(s, r)),
        forall|l: Seq<char>| #[trigger]
            stat_of(stat_counted(s, r), l) == plus(stat_of(s, l), share(r, l)),
{
    let lang = r.lang.name();
    let i = stat_at(s, lang, 0);
    let t = stat_counted(s, r);
    lemma_stat_at(s, lang, 0);
    lemma_stats_sum_bounds(s);
    if i < s.len() {
        assert(at_most(count_of(s[i].1), stats_sum(s)));
        lemma_stats_sum_update(s, i, t[i]);
    } else {
        assert(t.drop_last() =~= s);
    }
    assert forall|l: Seq<char>| #[trigger]
        stat_of(t, l) == plus(stat_of(s, l), share(r, l)) by {
        let a = stat_at(s, l, 0);
        let b = stat_at(t, l, 0);
        lemma_stat_at(s, l, 0);
        lemma_stat_at(t, l, 0);
        assert(forall|k: int| 0 <= k < s.len() ==> (#[trigger] t[k]).0 == s[k].0);
        if a < s.len() {
            assert(t[a].0 == l);
            if b < a {
                assert(s[b].0 == t[b].0);
            }
            assert(a == b);
        } else if b < s.len() {
            assert(s[b].0 == t[b].0);
        } else if t.len() > s.len() {
            assert(t[s.len() as int].0 == lang);
        }
    }
}

/// Taking a file out again takes it from its language and from the sum, and
/// from nothing else.
pub proof fn lemma_stat_uncounted(s: Seq<(Seq<char>, LangStats)>, r: FileRecord)
    requires
        each_once(s),
        at_most(share(r, r.lang.name()), stat_of(s, r.lang.name())),
    ensures
        plus(stats_sum(stat_uncounted(s, r)), share(r, r.lang.name())) == stats_sum(s),
        each_once(stat_uncounted(s, r)),
        none_empty(s) ==> none_empty(stat_uncounted(s, r)),
        forall|l: Seq<char>| #[trigger]
            plus(stat_of(stat_uncounted(s, r), l), share(r, l)) == stat_of(s, l),
{
    let lang = r.lang.name();
    let i = stat_at(s, lang, 0);
    let t = stat_uncounted(s, r);
    lemma_stat_at(s, lang, 0);
    assert(i < s.len());
    let gone = t.len() < s.len();
    if gone {
        lemma_stats_sum_remove(s, i);
    } else {
        lemma_stats_sum_update(s, i, t[i]);
    }
    assert forall|l: Seq<char>| #[trigger]
        plus(stat_of(t, l), share(r, l)) == stat_of(s, l) by {
        let a = stat_at(s, l, 0);
        let b = stat_at(t, l, 0);
        lemma_stat_at(s, l, 0);
        lemma_stat_at(t, l, 0);
        if gone {
            if b < t.len() {
                let k = if b < i {
                    b
                } else {
                    b + 1
                };
                assert(s[k] == t[b]);
                if a < k {
                    assert(s[a].0 == l);
                } else {
                    assert(a <= k);
                }
                assert(a == k);
            } else if a < s.len() && a != i {
                let k = if a < i {
                    a
                } else {
                    a - 1
                };
                assert(t[k] == s[a]);
            }
        } else {
            assert(forall|k: int| 0 <= k < s.len() ==> (#[trigger] t[k]).0 == s[k].0);
            if a < s.len() {
                assert(t[a].0 == l);
                if b < a {
                    assert(s[b].0 == t[b].0);
                }
                assert(a == b);
            } else if b < s.len() {
                assert(s[b].0 == t[b].0);
            }
        }
    }
}

/// With a file counted under a path that was not there, every file is still in
/// the count of its language.
pub proof fn lemma_covered_insert(
    s: Seq<(Seq<char>, LangStats)>,
    files: Map<Seq<Seq<u8>>, FileRecord>,
    k: Seq<Seq<u8>>,
    r: FileRecord,
)
    requires
        stats_sum(s).0 < u64::MAX,
        stats_sum(s).1 + r.lines <= u64::MAX,
        stats_sum(s).2 + r.bytes <= u64::MAX,
        files.dom().finite(),
        covered(s, files),
    ensures
        covered(stat_counted(s, r), files.insert(k, r)),
{
    lemma_stat_counted(s, r);
    let now = files.insert(k, r);
    assert forall|l: Seq<char>| at_most(
        #[trigger] shares(now, l),
        stat_of(stat_counted(s, r), l),
    ) by {
        lemma_shares_remove(now, k, l);
        assert(now.remove(k) =~= files.remove(k));
        assert(at_most(shares(files, l), stat_of(s, l)));
        if files.contains_key(k) {
            lemma_shares_remove(files, k, l);
        } else {
            assert(files.remove(k) =~= files);
        }
    }
}

/// Where every file is in the count of its language, a file can be taken out,
/// and the others still are.
pub proof fn lemma_covered_remove(
    s: Seq<(Seq<char>, LangStats)>,
    files: Map<Seq<Seq<u8>>, FileRecord>,
    k: Seq<Seq<u8>>,
)
    requires
        each_once(s),
        files.dom().finite(),
        files.contains_key(k),
        covered(s, files),
    ensures
        at_most(share(files[k], files[k].lang.name()), stat_of(s, files[k].lang.name())),
        covered(stat_uncounted(s, files[k]), files.remove(k)),
{
    let r = files[k];
    let lang = r.lang.name();
    lemma_shares_remove(files, k, lang);
    lemma_shares_bounds(files.remove(k), lang);
    assert(at_most(shares(files, lang), stat_of(s, lang)));
    lemma_stat_uncounted(s, r);
    assert forall|l: Seq<char>| at_most(
        #[trigger] shares(files.remove(k), l),
        stat_of(stat_uncounted(s, r), l),
    ) by {
        lemma_shares_remove(files, k, l);
        assert(at_most(shares(files, l), stat_of(s, l)));
        assert(plus(stat_of(stat_uncounted(s, r), l), share(r, l)) == stat_of(s, l));
    }
}

/// Taking a file out right after it was counted restores the statistics.
pub proof fn uncounting_undoes_counting(s: Seq<(Seq<char>, LangStats)>, r: FileRecord)
    requires
        stats_sum(s).0 < u64::MAX,
        stats_sum(s).1 + r.lines <= u64::MAX,
        stats_sum(s).2 + r.bytes <= u64::MAX,
        none_empty(s),
    ensures
        stat_uncounted(stat_counted(s, r), r) == s,
{
    let lang = r.lang.name();
    let t = stat_counted(s, r);
    let i = stat_at(s, lang, 0);
    let j = stat_at(t, lang, 0);
    lemma_stat_at(s, lang, 0);
    lemma_stat_at(t, lang, 0);
    lemma_stats_sum_bounds(s);
    assert(t[i].0 == lang);
    if j < i {
        assert(t[j].0 == s[j].0);
    }
    assert(i == j);
    if i < s.len() {
        assert(at_most(count_of(s[i].1), stats_sum(s)));
    }
    assert(stat_uncounted(t, r) =~= s);
}

/// Counts a file for its language.
pub fn count_stat(stats: &mut Vec<(Lang, LangStats)>, r: FileRecord)
    requires
        stats_sum(stats_model(old(stats)@)).0 < u64::MAX,
        stats_sum(stats_model(old(stats)@)).1 + r.lines <= u64::MAX,
        stats_sum(stats_model(old(stats)@)).2 + r.bytes <= u64::MAX,
    ensures
        stats_model(final(stats)@) == stat_counted(stats_model(old(stats)@), r),
{
    let ghost s = stats_model(stats@);
    let i = find_stat(stats, r.lang);
    proof {
        lemma_stats_sum_bounds(s);
    }
    if i < stats.len() {
        let e = stats[i].1;
        proof {
            assert(s[i as int].1 == e);
            assert(at_most(count_of(s[i as int].1), stats_sum(s)));
        }
        stats.set(
            i,
            (
                r.lang,
                LangStats {
                    files: e.files + 1,
                    lines: e.lines + r.lines,
                    bytes: e.bytes + r.bytes,
                },
            ),
        );
    } else {
        stats.push((r.lang, LangStats { files: 1, lines: r.lines, bytes: r.bytes }));
    }
    proof {
        assert(stats_model(stats@) =~= stat_counted(s, r));
    }
}

/// Takes a file from the count of its language.
pub fn uncount_stat(stats: &mut Vec<(Lang, LangStats)>, r: FileRecord)
    requires
        at_most(share(r, r.lang.name()), stat_of(stats_model(old(stats)@), r.lang.name())),
    ensures
        stats_model(final(stats)@) == stat_uncounted(stats_model(old(stats)@), r),
{
    let ghost s = stats_model(stats@);
    let i = find_stat(stats, r.lang);
    let e = stats[i].1;
    proof {
        assert(s[i as int].1 == e);
    }
    let less = LangStats {
        files: e.files - 1,
        lines: e.lines - r.lines,
        bytes: e.bytes - r.bytes,
    };
    if less.files == 0 && less.lines == 0 && less.bytes == 0 {
        let _ = stats.remove(i);
    } else {
        stats.set(i, (r.lang, less));
    }
    proof {
        assert(stats_model(stats@) =~= stat_uncounted(s, r));
    }
}

fn find_stat(stats: &Vec<(Lang, LangStats)>, lang: Lang) -> (i: usize)
    ensures
        i == stat_at(stats_model(stats@), lang.name(), 0),
        i <= stats@.len(),
{
    let ghost s = stats_model(stats@);
    let mut i: usize = 0;
    while i < stats.len() && !stats[i].0.is(lang)
        invariant
            i <= stats@.len() == s.len(),
            s == stats_model(stats@),
            stat_at(s, lang.name(), 0) == stat_at(s, lang.name(), i as int),
        decreases stats@.len() - i,
    {
        i = i + 1;
    }
    i
}

} // verus!
