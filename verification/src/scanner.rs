//! Which files count, and how many lines they have.

use vstd::prelude::*;
use vstd::string::*;

use crate::lang;
use crate::lang::Lang;
use crate::path;
use crate::path::FilePath;
use crate::text;
use crate::time::Span;
use crate::tree;

verus! {

/// Where the list of files comes from.
#[derive(Debug, Clone, Copy, PartialEq, Eq, Structural)]
pub enum VcsMode {
    /// The folders are walked.
    Walk,
    /// Git lists the files.
    Git,
}

/// What to scan.
#[derive(Debug)]
pub struct ScanConfig {
    pub root: FilePath,
    pub vcs: VcsMode,
    pub threads: usize,
    pub max_file_size: u64,
    pub exclude_dirs: Vec<String>,
    pub include_dirs: Vec<String>,
    pub exclude_exts: Vec<String>,
    pub include_exts: Vec<String>,
    pub exclude_langs: Vec<String>,
    pub include_langs: Vec<String>,
    pub follow_links: bool,
    pub hidden: bool,
    pub no_ignore: bool,
}

/// What to scan, with texts as sequences.
#[verifier::ext_equal]
pub struct ConfigModel {
    pub root: Seq<u8>,
    pub vcs: VcsMode,
    pub threads: usize,
    pub max_file_size: u64,
    pub exclude_dirs: Seq<Seq<char>>,
    pub include_dirs: Seq<Seq<char>>,
    pub exclude_exts: Seq<Seq<char>>,
    pub include_exts: Seq<Seq<char>>,
    pub exclude_langs: Seq<Seq<char>>,
    pub include_langs: Seq<Seq<char>>,
    pub follow_links: bool,
    pub hidden: bool,
    pub no_ignore: bool,
}

impl ScanConfig {
    /// What to scan.
    pub open spec fn model(self) -> ConfigModel {
        ConfigModel {
            root: self.root@,
            vcs: self.vcs,
            threads: self.threads,
            max_file_size: self.max_file_size,
            exclude_dirs: tree::texts(self.exclude_dirs@),
            include_dirs: tree::texts(self.include_dirs@),
            exclude_exts: tree::texts(self.exclude_exts@),
            include_exts: tree::texts(self.include_exts@),
            exclude_langs: tree::texts(self.exclude_langs@),
            include_langs: tree::texts(self.include_langs@),
            follow_links: self.follow_links,
            hidden: self.hidden,
            no_ignore: self.no_ignore,
        }
    }
}

/// When a file was changed: seconds and nanoseconds since the epoch.
#[derive(Debug, Clone, Copy, PartialEq, Eq, Structural)]
pub struct Stamp {
    pub secs: i64,
    pub nanos: u32,
}

/// What the scan reports.
#[derive(Debug)]
pub enum ScanEvent {
    /// A file was counted.
    File {
        path: FilePath,
        lang: Lang,
        lines: u64,
        bytes: u64,
        mtime: Option<Stamp>,
        count_nanos: u64,
    },
    /// The scan ended.
    Done { at: Span },
}

/// Whether a list holds a text.
pub fn lists(v: &Vec<String>, s: &str) -> (r: bool)
    ensures
        r == tree::texts(v@).contains(s@),
{
    let ghost ts = tree::texts(v@);
    let mut i: usize = 0;
    while i < v.len()
        invariant
            i <= v@.len() == ts.len(),
            ts == tree::texts(v@),
            forall|k: int| 0 <= k < i ==> ts[k] != s@,
        decreases v@.len() - i,
    {
        if text::same(v[i].as_str(), s) {
            proof {
                assert(ts[i as int] == s@);
            }
            return true;
        }
        i = i + 1;
    }
    false
}

// ── lines ───────────────────────────────────────────────────────────────────

/// A line feed.
pub const NEWLINE: u8 = 10;

/// How much of a file is searched for a zero byte.
pub const HEAD: usize = 8192;

/// How often a byte occurs.
pub open spec fn occurrences(s: Seq<u8>, b: u8) -> nat
    decreases s.len(),
{
    if s.len() == 0 {
        0
    } else {
        occurrences(s.drop_last(), b) + if s.last() == b {
            1nat
        } else {
            0nat
        }
    }
}

/// `memchr::memchr` gives the first place of a byte, or nothing where the byte
/// does not occur.
pub assume_specification[ memchr::memchr ](needle: u8, haystack: &[u8]) -> (r: Option<usize>)
    ensures
        r is None <==> !haystack@.contains(needle),
        r is Some ==> r->0 < haystack@.len() && haystack@[r->0 as int] == needle && forall|i: int|
            0 <= i < r->0 ==> haystack@[i] != needle,
;

/// `memchr::memchr_iter` walks all places of a byte, so it has as many items as
/// the byte occurs.
#[verifier::external_body]
fn count_byte(needle: u8, haystack: &[u8]) -> (r: usize)
    ensures
        r == occurrences(haystack@, needle),
{
    memchr::memchr_iter(needle, haystack).count()
}

/// Whether a file is not text: a zero byte near its start says so.
pub open spec fn binary(s: Seq<u8>) -> bool {
    s.take(
        if s.len() < HEAD {
            s.len() as int
        } else {
            HEAD as int
        },
    ).contains(0)
}

/// How many lines a text has; the last one needs no line feed.
pub open spec fn lines_of(s: Seq<u8>) -> nat {
    occurrences(s, NEWLINE) + if s.len() > 0 && s.last() != NEWLINE {
        1nat
    } else {
        0nat
    }
}

proof fn lemma_occurrences_bound(s: Seq<u8>, b: u8)
    ensures
        occurrences(s, b) <= s.len(),
        s.len() > 0 && s.last() != b ==> occurrences(s, b) < s.len(),
    decreases s.len(),
{
    if s.len() > 0 {
        lemma_occurrences_bound(s.drop_last(), b);
    }
}

/// The lines of a text, or nothing where it is no text.
pub fn count_bytes(buf: &[u8]) -> (r: Option<u64>)
    ensures
        r is None <==> binary(buf@),
        r is Some ==> r->0 == lines_of(buf@),
        r is None <==> exists|i: int| 0 <= i < buf@.len() && i < 8192 && #[trigger] buf@[i] == 0,
{
    let n: usize = buf.len();
    let head: usize = if n < HEAD {
        n
    } else {
        HEAD
    };
    let start = vstd::slice::slice_subrange(buf, 0, head);
    proof {
        assert(start@ =~= buf@.take(head as int));
        lemma_occurrences_bound(buf@, NEWLINE);
        zero_bytes_tell_binaries(buf@);
    }
    if memchr::memchr(0, start).is_some() {
        return None;
    }
    let mut lines: u64 = count_byte(NEWLINE, buf) as u64;
    if n > 0 && buf[n - 1] != NEWLINE {
        lines = lines + 1;
    }
    Some(lines)
}

/// A file is taken for binary exactly if one of its first 8192 bytes is zero;
/// no other byte matters.
pub proof fn zero_bytes_tell_binaries(s: Seq<u8>)
    ensures
        binary(s) <==> exists|i: int| 0 <= i < s.len() && i < 8192 && #[trigger] s[i] == 0,
        (forall|i: int| 0 <= i < s.len() ==> #[trigger] s[i] != 0) ==> !binary(s),
{
    let n = if s.len() < HEAD {
        s.len() as int
    } else {
        HEAD as int
    };
    let start = s.take(n);
    if binary(s) {
        let i = choose|i: int| 0 <= i < start.len() && start[i] == 0;
        assert(s[i] == 0);
    }
    if exists|i: int| 0 <= i < s.len() && i < 8192 && #[trigger] s[i] == 0 {
        let i = choose|i: int| 0 <= i < s.len() && i < 8192 && #[trigger] s[i] == 0;
        assert(start[i] == 0);
    }
}

/// Nothing has no lines, and bytes without a line feed before the last one are
/// one line, whether or not it is ended. With [`lines_add_up`] this says how
/// many lines every text has.
pub proof fn a_line_counts_once(s: Seq<u8>)
    requires
        forall|i: int| 0 <= i < s.len() - 1 ==> #[trigger] s[i] != 10,
    ensures
        lines_of(s) == if s.len() == 0 {
            0nat
        } else {
            1nat
        },
{
    if s.len() > 0 {
        lemma_no_occurrences(s.drop_last(), 10);
    }
}

proof fn lemma_no_occurrences(s: Seq<u8>, b: u8)
    requires
        forall|i: int| 0 <= i < s.len() ==> #[trigger] s[i] != b,
    ensures
        occurrences(s, b) == 0,
    decreases s.len(),
{
    if s.len() > 0 {
        lemma_no_occurrences(s.drop_last(), b);
    }
}

/// How many of the bytes before `n` end a line: each line feed is one.
pub open spec fn ends_before(s: Seq<u8>, n: int) -> Set<int> {
    Set::new(|i: int| 0 <= i < n && s[i] == 10)
}

proof fn lemma_ends(s: Seq<u8>, n: int)
    requires
        0 <= n <= s.len(),
    ensures
        ends_before(s, n).finite(),
        ends_before(s, n).len() == occurrences(s.take(n), 10),
    decreases n,
{
    if n > 0 {
        lemma_ends(s, n - 1);
        assert(s.take(n).drop_last() =~= s.take(n - 1));
        if s[n - 1] == 10 {
            assert(ends_before(s, n) =~= ends_before(s, n - 1).insert(n - 1));
        } else {
            assert(ends_before(s, n) =~= ends_before(s, n - 1));
        }
    } else {
        assert(ends_before(s, n) =~= Set::empty());
    }
}

/// A text has as many lines as places that hold a line feed, and one more where
/// its last line is not ended.
pub proof fn lines_are_places(s: Seq<u8>)
    ensures
        s.len() == 0 ==> lines_of(s) == 0,
        s.len() > 0 && s[s.len() - 1] == 10 ==> lines_of(s) == ends_before(
            s,
            s.len() as int,
        ).len(),
        s.len() > 0 && s[s.len() - 1] != 10 ==> lines_of(s) == ends_before(
            s,
            s.len() as int,
        ).len() + 1,
{
    lemma_ends(s, s.len() as int);
    assert(s.take(s.len() as int) =~= s);
}

/// A file is left out exactly if it is larger than the limit, where there is
/// one, or a zero byte is among its first 8192; otherwise all its bytes and
/// lines count.
pub proof fn files_count_unless_large_or_binary(len: u64, max_size: u64, contents: Seq<u8>)
    requires
        contents.len() <= u64::MAX,
        len == 0 ==> contents.len() == 0,
    ensures
        counted(len, max_size, contents) is None <==> (max_size > 0 && len > max_size) || exists|
            i: int,
        |
            0 <= i < contents.len() && i < 8192 && #[trigger] contents[i] == 0,
        counted(len, max_size, contents) is Some ==> counted(len, max_size, contents) == Some(
            (lines_of(contents) as u64, contents.len() as u64),
        ),
{
    zero_bytes_tell_binaries(contents);
    lemma_occurrences_bound(contents, NEWLINE);
    lines_are_places(contents);
}

/// Text that ends a line, and the text after it, have their lines together.
pub proof fn lines_add_up(a: Seq<u8>, b: Seq<u8>)
    requires
        a.len() == 0 || a.last() == NEWLINE,
    ensures
        lines_of(a + b) == lines_of(a) + lines_of(b),
{
    lemma_occurrences_joined(a, b, NEWLINE);
    if b.len() == 0 {
        assert(a + b =~= a);
    } else {
        assert((a + b).last() == b.last());
    }
}

proof fn lemma_occurrences_joined(a: Seq<u8>, b: Seq<u8>, c: u8)
    ensures
        occurrences(a + b, c) == occurrences(a, c) + occurrences(b, c),
    decreases b.len(),
{
    if b.len() == 0 {
        assert(a + b =~= a);
    } else {
        assert((a + b).drop_last() =~= a + b.drop_last());
        lemma_occurrences_joined(a, b.drop_last(), c);
    }
}

/// Whether a file is small enough to be read; without a limit every file is.
pub open spec fn admitted(len: u64, max_size: u64) -> bool {
    max_size == 0 || len <= max_size
}

/// Whether a file is small enough to be read.
pub fn admits(len: u64, max_size: u64) -> (r: bool)
    ensures
        r == admitted(len, max_size),
{
    !(max_size > 0 && len > max_size)
}

/// The lines and bytes of a file of `len` bytes that was read as `contents`.
/// An empty file is not looked into.
pub open spec fn counted(len: u64, max_size: u64, contents: Seq<u8>) -> Option<(u64, u64)> {
    if !admitted(len, max_size) {
        None
    } else if len == 0 {
        Some((0, 0))
    } else if binary(contents) {
        None
    } else {
        Some((lines_of(contents) as u64, contents.len() as u64))
    }
}

/// The lines and bytes of a file, or nothing where it is too large or no text.
pub fn count(len: u64, max_size: u64, contents: &[u8]) -> (r: Option<(u64, u64)>)
    ensures
        r == counted(len, max_size, contents@),
{
    if !admits(len, max_size) {
        return None;
    }
    if len == 0 {
        return Some((0, 0));
    }
    match count_bytes(contents) {
        Some(lines) => Some((lines, contents.len() as u64)),
        None => None,
    }
}

// ── filters ─────────────────────────────────────────────────────────────────

/// The text of the first part of a path.
pub open spec fn first_text(p: Seq<u8>) -> Option<Seq<char>> {
    text::utf8_text(path::parts(p)[0])
}

/// Whether a path lies in one of the folders that are included. Files at the
/// top, and paths elsewhere, do.
pub open spec fn in_included_dir(p: Seq<u8>, c: ConfigModel) -> bool {
    c.include_dirs.len() == 0 || match path::stripped(p, c.root) {
        Some(rel) => path::parts(rel).len() < 2 || (first_text(rel) is Some
            && c.include_dirs.contains(first_text(rel)->0)),
        None => true,
    }
}

/// Whether the text of a part of a path is one of some names.
pub open spec fn named(part: Seq<u8>, names: Seq<Seq<char>>) -> bool {
    text::utf8_text(part) is Some && names.contains(text::utf8_text(part)->0)
}

/// Whether a path lies in a folder below the root that is excluded.
pub open spec fn in_excluded_dir(p: Seq<u8>, c: ConfigModel) -> bool {
    path::starts_with(p, c.root) && exists|i: int|
        path::parts(c.root).len() <= i < path::parts(p).len() - 1 && named(
            #[trigger] path::parts(p)[i],
            c.exclude_dirs,
        )
}

/// Whether a path lies in the folders that are scanned.
pub open spec fn in_scanned_dir(p: Seq<u8>, c: ConfigModel) -> bool {
    in_included_dir(p, c) && !in_excluded_dir(p, c)
}

/// The extension of a path in lower case, where it is text.
pub open spec fn ext_of(p: Seq<u8>) -> Option<Seq<char>> {
    match path::extension_of(p) {
        Some(e) => match text::utf8_text(e) {
            Some(s) => Some(text::lowered(s)),
            None => None,
        },
        None => None,
    }
}

/// Whether the extension of a path is wanted.
pub open spec fn ext_wanted(p: Seq<u8>, c: ConfigModel) -> bool {
    match ext_of(p) {
        Some(e) => (c.include_exts.len() == 0 || c.include_exts.contains(e))
            && !c.exclude_exts.contains(e),
        None => c.include_exts.len() == 0,
    }
}

/// Whether a language is wanted.
pub open spec fn lang_wanted(l: Seq<char>, c: ConfigModel) -> bool {
    (c.include_langs.len() == 0 || c.include_langs.contains(l)) && !c.exclude_langs.contains(l)
}

/// The language of a file that counts.
pub open spec fn classified(p: Seq<u8>, c: ConfigModel) -> Option<Seq<char>> {
    match lang::detected(p) {
        Some(l) => if in_scanned_dir(p, c) && ext_wanted(p, c) && lang_wanted(l, c) {
            Some(l)
        } else {
            None
        },
        None => None,
    }
}

fn is_in_included_dir(p: &FilePath, cfg: &ScanConfig) -> (r: bool)
    ensures
        r == in_included_dir(p@, cfg.model()),
{
    if cfg.include_dirs.len() == 0 {
        return true;
    }
    match p.strip_prefix(&cfg.root) {
        Some(rel) => {
            let (n, first) = rel.first_part();
            if n < 2 {
                return true;
            }
            match text::utf8(first) {
                Some(s) => lists(&cfg.include_dirs, s),
                None => false,
            }
        },
        None => true,
    }
}

fn is_in_excluded_dir(p: &FilePath, cfg: &ScanConfig) -> (r: bool)
    ensures
        r == in_excluded_dir(p@, cfg.model()),
{
    let ghost c = cfg.model();
    if cfg.exclude_dirs.len() == 0 {
        proof {
            assert(c.exclude_dirs =~= seq![]);
        }
        return false;
    }
    if p.strip_prefix(&cfg.root).is_none() {
        return false;
    }
    let parts = p.all_parts();
    if parts.len() == 0 {
        return false;
    }
    let end: usize = parts.len() - 1;
    let (n, _) = cfg.root.first_part();
    let mut i: usize = n;
    while i < end
        invariant
            n <= i,
            end == parts@.len() - 1,
            n == path::parts(c.root).len(),
            c == cfg.model(),
            i <= parts@.len() == path::parts(p@).len(),
            forall|k: int|
                0 <= k < parts@.len() ==> (#[trigger] parts@[k])@ == path::parts(p@)[k],
            path::starts_with(p@, c.root),
            forall|k: int| n <= k < i ==> !named(#[trigger] path::parts(p@)[k], c.exclude_dirs),
        decreases parts@.len() - i,
    {
        let ghost part = path::parts(p@)[i as int];
        proof {
            assert(parts@[i as int]@ == part);
        }
        if let Some(name) = text::utf8(parts[i].as_slice()) {
            if lists(&cfg.exclude_dirs, name) {
                proof {
                    assert(named(part, c.exclude_dirs));
                }
                return true;
            }
        }
        i = i + 1;
    }
    false
}

/// The language of a file that counts, or nothing. The walk, the list of git and
/// the watcher all ask this: none of them counts a file in an excluded folder, of
/// an unwanted extension, or of an unwanted language.
pub fn classify(path: &FilePath, cfg: &ScanConfig) -> (r: Option<Lang>)
    ensures
        r is Some <==> classified(path@, cfg.model()) is Some,
        r is Some ==> r->0.name() == classified(path@, cfg.model())->0,
{
    if !is_in_included_dir(path, cfg) || is_in_excluded_dir(path, cfg) {
        return None;
    }
    let ext = match path.extension() {
        Some(e) => match text::utf8(e) {
            Some(s) => Some(text::to_lower(s)),
            None => None,
        },
        None => None,
    };
    match ext {
        Some(e) => {
            if cfg.include_exts.len() > 0 && !lists(&cfg.include_exts, e.as_str()) {
                return None;
            }
            if lists(&cfg.exclude_exts, e.as_str()) {
                return None;
            }
        },
        None => {
            if cfg.include_exts.len() > 0 {
                return None;
            }
        },
    }
    match lang::detect(path) {
        Some(l) => {
            if cfg.include_langs.len() > 0 && !lists(&cfg.include_langs, l.0) {
                return None;
            }
            if lists(&cfg.exclude_langs, l.0) {
                return None;
            }
            Some(l)
        },
        None => None,
    }
}

/// What the walk does with an entry.
#[derive(Debug, Clone, Copy, PartialEq, Eq, Structural)]
pub enum Visit {
    /// Leave out the folder and all inside.
    Skip,
    /// Go on.
    Continue,
    /// Count the file.
    Process,
}

/// Whether the walk leaves out a folder by its name: an excluded one, or one
/// at the top that is not included.
pub open spec fn skips_dir(p: Seq<u8>, depth: usize, c: ConfigModel) -> bool {
    match path::name_of(p) {
        Some(bytes) => match text::utf8_text(bytes) {
            Some(name) => c.exclude_dirs.contains(name) || (depth == 1 && c.include_dirs.len() > 0
                && !c.include_dirs.contains(name)),
            None => false,
        },
        None => false,
    }
}

/// What the walk does with an entry.
pub open spec fn visited(p: Seq<u8>, is_dir: bool, is_file: bool, depth: usize, c: ConfigModel) -> Visit {
    if is_dir {
        if skips_dir(p, depth, c) {
            Visit::Skip
        } else {
            Visit::Continue
        }
    } else if is_file {
        Visit::Process
    } else {
        Visit::Continue
    }
}

/// What the walk does with an entry.
pub fn visit(path: &FilePath, is_dir: bool, is_file: bool, depth: usize, cfg: &ScanConfig) -> (r:
    Visit)
    ensures
        r == visited(path@, is_dir, is_file, depth, cfg.model()),
{
    if is_dir {
        if let Some(bytes) = path.file_name() {
            if let Some(name) = text::utf8(bytes) {
                if lists(&cfg.exclude_dirs, name) {
                    return Visit::Skip;
                }
                if depth == 1 && cfg.include_dirs.len() > 0 && !lists(&cfg.include_dirs, name) {
                    return Visit::Skip;
                }
            }
        }
        return Visit::Continue;
    }
    if is_file {
        Visit::Process
    } else {
        Visit::Continue
    }
}

// ── git ─────────────────────────────────────────────────────────────────────

/// The pieces of the first `n` bytes that end in a zero byte, and the rest.
pub open spec fn chunks(s: Seq<u8>, n: int) -> Seq<Seq<u8>>
    decreases n,
{
    if n <= 0 {
        seq![Seq::<u8>::empty()]
    } else {
        let before = chunks(s, n - 1);
        if s[n - 1] == 0 {
            before.push(Seq::<u8>::empty())
        } else {
            before.drop_last().push(before.last().push(s[n - 1]))
        }
    }
}

/// Whether a piece names a file that is kept.
pub open spec fn names_file(chunk: Seq<u8>, c: ConfigModel) -> bool {
    chunk.len() > 0 && vstd::utf8::valid_utf8(chunk) && in_scanned_dir(
        path::joined(c.root, chunk),
        c,
    )
}

/// The files that pieces name, below the root.
pub open spec fn listed(cs: Seq<Seq<u8>>, c: ConfigModel) -> Seq<Seq<u8>>
    decreases cs.len(),
{
    if cs.len() == 0 {
        seq![]
    } else {
        let before = listed(cs.drop_last(), c);
        if names_file(cs.last(), c) {
            before.push(path::joined(c.root, cs.last()))
        } else {
            before
        }
    }
}

/// The paths of a list.
pub open spec fn path_views(v: Seq<FilePath>) -> Seq<Seq<u8>> {
    v.map_values(|p: FilePath| p@)
}

fn take_chunk(out: &mut Vec<FilePath>, chunk: &[u8], cfg: &ScanConfig)
    ensures
        path_views(final(out)@) == if names_file(chunk@, cfg.model()) {
            path_views(old(out)@).push(path::joined(cfg.root@, chunk@))
        } else {
            path_views(old(out)@)
        },
{
    if chunk.len() == 0 || text::utf8(chunk).is_none() {
        return;
    }
    let p = cfg.root.join(chunk);
    if is_in_included_dir(&p, cfg) && !is_in_excluded_dir(&p, cfg) {
        let ghost so_far = out@;
        out.push(p);
        proof {
            assert(path_views(out@) =~= path_views(so_far).push(p@));
        }
    }
}

/// The files that `git ls-files -z` printed, without those that are not text,
/// not in an included folder, or in an excluded one.
pub fn git_paths(stdout: &[u8], cfg: &ScanConfig) -> (out: Vec<FilePath>)
    ensures
        path_views(out@) == listed(chunks(stdout@, stdout@.len() as int), cfg.model()),
{
    let ghost c = cfg.model();
    let mut out: Vec<FilePath> = Vec::new();
    let mut start: usize = 0;
    let mut i: usize = 0;
    proof {
        assert(path_views(out@) =~= seq![]);
        assert(chunks(stdout@, 0).drop_last() =~= seq![]);
        assert(stdout@.subrange(0, 0) =~= Seq::<u8>::empty());
    }
    while i < stdout.len()
        invariant
            start <= i <= stdout@.len(),
            c == cfg.model(),
            chunks(stdout@, i as int).len() > 0,
            chunks(stdout@, i as int).last() == stdout@.subrange(start as int, i as int),
            path_views(out@) == listed(chunks(stdout@, i as int).drop_last(), c),
        decreases stdout@.len() - i,
    {
        let ghost now = chunks(stdout@, i as int);
        if stdout[i] == 0 {
            take_chunk(&mut out, vstd::slice::slice_subrange(stdout, start, i), cfg);
            proof {
                assert(chunks(stdout@, i + 1).drop_last() =~= now);
                assert(stdout@.subrange(i + 1, i + 1) =~= Seq::<u8>::empty());
            }
            start = i + 1;
        } else {
            proof {
                assert(chunks(stdout@, i + 1).drop_last() =~= now.drop_last());
                assert(stdout@.subrange(start as int, i + 1) =~= stdout@.subrange(
                    start as int,
                    i as int,
                ).push(stdout@[i as int]));
            }
        }
        i = i + 1;
    }
    take_chunk(&mut out, vstd::slice::slice_subrange(stdout, start, stdout.len()), cfg);
    out
}

/// A file counts exactly if its language is known, its extension is included
/// and not excluded, its language too, the first folder below the root is
/// included, and no folder below the root is excluded. Lists of what to include
/// matter only where they name something.
pub proof fn files_count_by_the_filters(p: Seq<u8>, c: ConfigModel)
    ensures
        ({
            let ext = match path::extension_of(p) {
                Some(e) => if vstd::utf8::valid_utf8(e) {
                    Some(text::lowered(vstd::utf8::decode_utf8(e)))
                } else {
                    None
                },
                None => None,
            };
            let below = path::stripped(p, c.root);
            let by_lang = lang::detected(p) is Some && (c.include_langs.len() == 0
                || c.include_langs.contains(lang::detected(p)->0)) && !c.exclude_langs.contains(
                lang::detected(p)->0,
            );
            let by_ext = (c.include_exts.len() == 0 || (ext is Some && c.include_exts.contains(
                ext->0,
            ))) && (ext is None || !c.exclude_exts.contains(ext->0));
            let by_top = c.include_dirs.len() == 0 || below is None || path::parts(below->0).len()
                <= 1 || (vstd::utf8::valid_utf8(path::parts(below->0)[0])
                && c.include_dirs.contains(vstd::utf8::decode_utf8(path::parts(below->0)[0])));
            let by_dirs = below is None || forall|i: int|
                #![trigger path::parts(p)[i]]
                path::parts(c.root).len() <= i < path::parts(p).len() - 1
                    && vstd::utf8::valid_utf8(path::parts(p)[i]) ==> !c.exclude_dirs.contains(
                    vstd::utf8::decode_utf8(path::parts(p)[i]),
                );
            &&& classified(p, c) is Some <==> by_lang && by_ext && by_top && by_dirs
            &&& classified(p, c) is Some ==> classified(p, c) == lang::detected(p)
        }),
{
}

/// Without filters every file of a known language counts.
pub proof fn without_filters_all_files_count(p: Seq<u8>, c: ConfigModel)
    requires
        c.exclude_dirs.len() == 0,
        c.include_dirs.len() == 0,
        c.exclude_exts.len() == 0,
        c.include_exts.len() == 0,
        c.exclude_langs.len() == 0,
        c.include_langs.len() == 0,
    ensures
        classified(p, c) == lang::detected(p),
{
    files_count_by_the_filters(p, c);
    assert(c.exclude_dirs =~= seq![]);
    assert(c.exclude_exts =~= seq![]);
    assert(c.exclude_langs =~= seq![]);
}

/// The walk counts files, and goes into every folder but those that are
/// excluded by their name and those at the top that are not included.
pub proof fn the_walk_goes_everywhere_else(
    p: Seq<u8>,
    is_dir: bool,
    is_file: bool,
    depth: usize,
    c: ConfigModel,
)
    ensures
        ({
            let r = visited(p, is_dir, is_file, depth, c);
            &&& !is_dir ==> (r == Visit::Process <==> is_file) && r != Visit::Skip
            &&& is_dir ==> r != Visit::Process
            &&& r == Visit::Skip <==> {
                &&& is_dir
                &&& path::name_of(p) is Some
                &&& vstd::utf8::valid_utf8(path::name_of(p)->0)
                &&& {
                    let name = vstd::utf8::decode_utf8(path::name_of(p)->0);
                    ||| c.exclude_dirs.contains(name)
                    ||| (depth == 1 && c.include_dirs.len() > 0 && !c.include_dirs.contains(name))
                }
            }
        }),
{
}

/// Names, each followed by a zero byte.
pub open spec fn printed(names: Seq<Seq<u8>>) -> Seq<u8>
    decreases names.len(),
{
    if names.len() == 0 {
        seq![]
    } else {
        (printed(names.drop_last()) + names.last()).push(0)
    }
}

proof fn lemma_chunks_same(a: Seq<u8>, b: Seq<u8>, n: int)
    requires
        0 <= n <= a.len(),
        n <= b.len(),
        a.take(n) == b.take(n),
    ensures
        chunks(a, n) == chunks(b, n),
    decreases n,
{
    if n > 0 {
        assert(a.take(n)[n - 1] == a[n - 1] && b.take(n)[n - 1] == b[n - 1]);
        assert(a.take(n - 1) =~= a.take(n).take(n - 1));
        assert(b.take(n - 1) =~= b.take(n).take(n - 1));
        lemma_chunks_same(a, b, n - 1);
    }
}

proof fn lemma_chunks_grow(s: Seq<u8>, n: int, e: Seq<u8>, k: int)
    requires
        0 <= n,
        n + e.len() <= s.len(),
        s.subrange(n, n + e.len()) == e,
        0 <= k <= e.len(),
        forall|i: int| 0 <= i < e.len() ==> #[trigger] e[i] != 0,
        chunks(s, n).len() > 0,
        chunks(s, n).last().len() == 0,
    ensures
        chunks(s, n + k) == chunks(s, n).drop_last().push(e.take(k)),
    decreases k,
{
    if k > 0 {
        lemma_chunks_grow(s, n, e, k - 1);
        assert(s[n + k - 1] == e[k - 1]) by {
            assert(s.subrange(n, n + e.len())[k - 1] == s[n + k - 1]);
        }
        let before = chunks(s, n + k - 1);
        assert(before.drop_last() =~= chunks(s, n).drop_last());
        assert(e.take(k - 1).push(e[k - 1]) =~= e.take(k));
    } else {
        assert(e.take(0) =~= chunks(s, n).last());
        assert(chunks(s, n).drop_last().push(e.take(0)) =~= chunks(s, n));
    }
}

/// The pieces of a list are the names that were printed.
pub proof fn printed_names_are_read_back(names: Seq<Seq<u8>>)
    requires
        forall|k: int, i: int|
            0 <= k < names.len() && 0 <= i < names[k].len() ==> #[trigger] names[k][i] != 0,
    ensures
        chunks(printed(names), printed(names).len() as int) == names.push(Seq::<u8>::empty()),
    decreases names.len(),
{
    let s = printed(names);
    if names.len() > 0 {
        let less = names.drop_last();
        let e = names.last();
        let t = printed(less);
        let n = t.len() as int;
        assert forall|k: int, i: int|
            0 <= k < less.len() && 0 <= i < less[k].len() implies #[trigger] less[k][i] != 0 by {
            assert(names[k][i] != 0);
        }
        assert forall|i: int| 0 <= i < e.len() implies #[trigger] e[i] != 0 by {
            assert(names[names.len() - 1][i] != 0);
        }
        printed_names_are_read_back(less);
        assert(s.take(n) =~= t.take(n));
        lemma_chunks_same(s, t, n);
        assert(s.subrange(n, n + e.len()) =~= e);
        lemma_chunks_grow(s, n, e, e.len() as int);
        assert(e.take(e.len() as int) =~= e);
        assert(less.push(Seq::<u8>::empty()).drop_last() =~= less);
        assert(less.push(e) =~= names);
        assert(s[n + e.len()] == 0);
    } else {
        assert(chunks(s, 0) =~= names.push(Seq::<u8>::empty()));
    }
}

/// Whether a path is named by one of the pieces.
pub open spec fn named_by(p: Seq<u8>, cs: Seq<Seq<u8>>, c: ConfigModel) -> bool {
    exists|k: int|
        0 <= k < cs.len() && names_file(#[trigger] cs[k], c) && path::joined(c.root, cs[k]) == p
}

proof fn lemma_listed(cs: Seq<Seq<u8>>, c: ConfigModel)
    ensures
        forall|i: int| 0 <= i < listed(cs, c).len() ==> named_by(#[trigger] listed(cs, c)[i], cs, c),
        forall|k: int|
            0 <= k < cs.len() && names_file(#[trigger] cs[k], c) ==> listed(cs, c).contains(
                path::joined(c.root, cs[k]),
            ),
        (forall|k: int| 0 <= k < cs.len() ==> names_file(#[trigger] cs[k], c)) ==> listed(cs, c)
            == cs.map_values(|e: Seq<u8>| path::joined(c.root, e)),
    decreases cs.len(),
{
    if cs.len() > 0 {
        let less = cs.drop_last();
        let before = listed(less, c);
        let now = listed(cs, c);
        let n = cs.len() - 1;
        lemma_listed(less, c);
        assert forall|i: int| 0 <= i < now.len() implies named_by(#[trigger] now[i], cs, c) by {
            if i < before.len() {
                assert(named_by(before[i], less, c));
                let k = choose|k: int|
                    0 <= k < less.len() && names_file(#[trigger] less[k], c) && path::joined(
                        c.root,
                        less[k],
                    ) == before[i];
                assert(cs[k] == less[k]);
            } else {
                assert(names_file(cs[n], c));
            }
        }
        assert forall|k: int| 0 <= k < cs.len() && names_file(#[trigger] cs[k], c) implies now.contains(
            path::joined(c.root, cs[k]),
        ) by {
            if k < n {
                assert(less[k] == cs[k]);
                let i = choose|i: int|
                    0 <= i < before.len() && before[i] == path::joined(c.root, less[k]);
                assert(now[i] == path::joined(c.root, cs[k]));
            } else {
                assert(now[before.len() as int] == path::joined(c.root, cs[k]));
            }
        }
        if forall|k: int| 0 <= k < cs.len() ==> names_file(#[trigger] cs[k], c) {
            assert forall|k: int| 0 <= k < less.len() implies names_file(#[trigger] less[k], c) by {
                assert(names_file(cs[k], c));
            }
            assert(names_file(cs[n], c));
            assert(now =~= cs.map_values(|e: Seq<u8>| path::joined(c.root, e)));
        }
    } else {
        assert(listed(cs, c) =~= cs.map_values(|e: Seq<u8>| path::joined(c.root, e)));
    }
}

/// Of the names that git prints exactly those are kept that hold something, are
/// valid UTF-8, and lie in the folders that are scanned; without lists of
/// folders all of them are kept, each below the root, in their order.
pub proof fn git_lists_what_it_prints(names: Seq<Seq<u8>>, c: ConfigModel)
    requires
        forall|k: int, i: int|
            0 <= k < names.len() && 0 <= i < names[k].len() ==> #[trigger] names[k][i] != 0,
    ensures
        ({
            let out = printed(names);
            let r = listed(chunks(out, out.len() as int), c);
            &&& forall|i: int|
                0 <= i < r.len() ==> exists|k: int|
                    0 <= k < names.len() && #[trigger] r[i] == path::joined(
                        c.root,
                        #[trigger] names[k],
                    )
            &&& forall|k: int|
                0 <= k < names.len() && (#[trigger] names[k]).len() > 0
                    && vstd::utf8::valid_utf8(names[k]) && in_scanned_dir(
                    path::joined(c.root, names[k]),
                    c,
                ) ==> r.contains(path::joined(c.root, names[k]))
            &&& c.include_dirs.len() == 0 && c.exclude_dirs.len() == 0 && (forall|k: int|
                0 <= k < names.len() ==> (#[trigger] names[k]).len() > 0
                    && vstd::utf8::valid_utf8(names[k])) ==> r == names.map_values(
                |e: Seq<u8>| path::joined(c.root, e),
            )
        }),
{
    let out = printed(names);
    let cs = names.push(Seq::<u8>::empty());
    let r = listed(cs, c);
    printed_names_are_read_back(names);
    lemma_listed(cs, c);
    lemma_listed(names, c);
    assert(cs.drop_last() =~= names);
    assert forall|i: int| 0 <= i < r.len() implies exists|k: int|
        0 <= k < names.len() && #[trigger] r[i] == path::joined(c.root, #[trigger] names[k]) by {
        assert(named_by(r[i], cs, c));
        let k = choose|k: int|
            0 <= k < cs.len() && names_file(#[trigger] cs[k], c) && path::joined(c.root, cs[k])
                == r[i];
        assert(k < names.len());
        assert(cs[k] == names[k]);
    }
    assert forall|k: int|
        0 <= k < names.len() && (#[trigger] names[k]).len() > 0 && vstd::utf8::valid_utf8(names[k])
            && in_scanned_dir(path::joined(c.root, names[k]), c) implies r.contains(
        path::joined(c.root, names[k]),
    ) by {
        assert(cs[k] == names[k]);
    }
    if c.include_dirs.len() == 0 && c.exclude_dirs.len() == 0 && (forall|k: int|
        0 <= k < names.len() ==> (#[trigger] names[k]).len() > 0 && vstd::utf8::valid_utf8(
            names[k],
        )) {
        assert(c.exclude_dirs =~= seq![]);
        assert forall|k: int| 0 <= k < names.len() implies names_file(#[trigger] names[k], c) by {}
    }
}

/// What the list of a version control system leaves out would not count
/// either.
pub proof fn git_leaves_out_what_does_not_count(p: Seq<u8>, c: ConfigModel)
    requires
        !in_scanned_dir(p, c),
    ensures
        classified(p, c) is None,
{
}

/// A folder below the root that is excluded by its name is skipped by the walk,
/// and nothing in it counts, whatever lists it.
pub proof fn excluded_folders_never_count(d: Seq<u8>, p: Seq<u8>, depth: usize, c: ConfigModel)
    requires
        path::starts_with(d, c.root),
        path::parts(c.root).len() < path::parts(d).len() < path::parts(p).len(),
        path::starts_with(p, d),
        path::name_of(d) is Some,
        named(path::name_of(d)->0, c.exclude_dirs),
    ensures
        visited(d, true, false, depth, c) == Visit::Skip,
        classified(p, c) is None,
{
    let i = path::parts(d).len() - 1;
    assert(path::parts(p)[i] == path::parts(d)[i]);
    assert(path::starts_with(p, c.root)) by {
        assert forall|k: int| 0 <= k < path::parts(c.root).len() implies path::parts(c.root)[k]
            == path::parts(p)[k] by {
            assert(path::parts(c.root)[k] == path::parts(d)[k]);
            assert(path::parts(d)[k] == path::parts(p)[k]);
        }
    }
    assert(named(path::parts(p)[i], c.exclude_dirs));
}

} // verus!
