//! What was asked for on the command line.

use vstd::prelude::*;
use vstd::string::*;

use crate::app;
use crate::path::FilePath;
use crate::scanner::{ConfigModel, ScanConfig, VcsMode};
use crate::text;
use crate::tree;

verus! {

/// The bytes of a megabyte.
pub const MEGABYTE: u64 = 1_048_576;

/// How many threads work where nothing says how many there should be.
pub const FALLBACK_THREADS: usize = 4;

/// What was asked for.
#[derive(Debug)]
pub struct Cli {
    pub path: FilePath,
    pub vcs: Option<String>,
    pub threads: Option<usize>,
    pub max_file_size: u64,
    pub exclude_dir: Vec<String>,
    pub include_dir: Vec<String>,
    pub exclude_ext: Vec<String>,
    pub include_ext: Vec<String>,
    pub exclude_lang: Vec<String>,
    pub include_lang: Vec<String>,
    pub follow_links: bool,
    pub hidden: bool,
    pub no_ignore: bool,
    pub watch: bool,
    pub bench: bool,
    pub auto_exit_ms: Option<u64>,
}

/// Why what was asked for cannot be done.
#[derive(Debug)]
pub enum CliError {
    /// No version control system of that name is known.
    UnsupportedVcs(String),
}

impl CliError {
    /// What the user is told.
    pub open spec fn text(self) -> Seq<char> {
        match self {
            CliError::UnsupportedVcs(v) => "unsupported --vcs: "@ + v@
                + ". only 'git' is supported"@,
        }
    }

    /// What the user is told.
    pub fn message(&self) -> (r: String)
        ensures
            r@ == self.text(),
    {
        match self {
            CliError::UnsupportedVcs(v) => {
                let mut s = "unsupported --vcs: ".to_string();
                s.append(v.as_str());
                s.append(". only 'git' is supported");
                s
            },
        }
    }
}

/// Whether a text is `git`, in any mix of cases.
pub open spec fn is_git(v: Seq<char>) -> bool {
    text::lowered(v) == "git"@
}

/// The texts in lower case.
pub open spec fn all_lowered(v: Seq<Seq<char>>) -> Seq<Seq<char>> {
    v.map_values(|s: Seq<char>| text::lowered(s))
}

fn lower_all(v: &Vec<String>) -> (r: Vec<String>)
    ensures
        tree::texts(r@) == all_lowered(tree::texts(v@)),
{
    let ghost want = all_lowered(tree::texts(v@));
    let mut out: Vec<String> = Vec::new();
    let mut i: usize = 0;
    while i < v.len()
        invariant
            i <= v@.len() == want.len(),
            want == all_lowered(tree::texts(v@)),
            tree::texts(out@) =~= want.take(i as int),
        decreases v@.len() - i,
    {
        let ghost so_far = out@;
        out.push(text::to_lower(v[i].as_str()));
        proof {
            assert(tree::texts(out@) =~= tree::texts(so_far).push(text::lowered(v@[i as int]@)));
            assert(want[i as int] == text::lowered(v@[i as int]@));
            assert(want.take(i + 1) =~= want.take(i as int).push(want[i as int]));
        }
        i = i + 1;
    }
    proof {
        assert(want.take(i as int) =~= want);
    }
    out
}

/// A size in megabytes as bytes; too large a size becomes the largest.
pub open spec fn megabytes(n: u64) -> u64 {
    if n * MEGABYTE > u64::MAX {
        u64::MAX
    } else {
        (n * MEGABYTE) as u64
    }
}

impl Cli {
    /// Where the list of files comes from, or nothing where what was asked for
    /// is not known.
    pub open spec fn vcs_of(self) -> Option<VcsMode> {
        match self.vcs {
            None => Some(VcsMode::Walk),
            Some(v) => if is_git(v@) {
                Some(VcsMode::Git)
            } else {
                None
            },
        }
    }

    /// How many threads work: as many as were asked for, else as many as can
    /// run at once, and one at least.
    pub open spec fn threads_of(self, available: Option<usize>) -> usize {
        let n = match self.threads {
            Some(n) => n,
            None => match available {
                Some(n) => n,
                None => FALLBACK_THREADS,
            },
        };
        if n < 1 {
            1
        } else {
            n
        }
    }

    /// What to scan.
    pub open spec fn config_of(self, root: Seq<u8>, vcs: VcsMode, available: Option<usize>) -> ConfigModel {
        ConfigModel {
            root,
            vcs,
            threads: self.threads_of(available),
            max_file_size: megabytes(self.max_file_size),
            exclude_dirs: tree::texts(self.exclude_dir@),
            include_dirs: tree::texts(self.include_dir@),
            exclude_exts: all_lowered(tree::texts(self.exclude_ext@)),
            include_exts: all_lowered(tree::texts(self.include_ext@)),
            exclude_langs: tree::texts(self.exclude_lang@),
            include_langs: tree::texts(self.include_lang@),
            follow_links: self.follow_links,
            hidden: self.hidden,
            no_ignore: self.no_ignore,
        }
    }

    /// Where the list of files comes from. Only git is known, in any mix of
    /// cases.
    pub fn vcs_mode(&self) -> (r: Result<VcsMode, CliError>)
        ensures
            r is Ok <==> self.vcs_of() is Some,
            r is Ok ==> r->Ok_0 == self.vcs_of()->0,
            r is Err ==> r->Err_0->UnsupportedVcs_0@ == self.vcs->0@,
    {
        match &self.vcs {
            None => Ok(VcsMode::Walk),
            Some(v) => {
                let s = text::to_lower(v.as_str());
                if text::same(s.as_str(), "git") {
                    Ok(VcsMode::Git)
                } else {
                    Err(CliError::UnsupportedVcs(v.clone()))
                }
            },
        }
    }

    /// How many threads work. `available` is how many can run at once, where
    /// that is known.
    pub fn thread_count(&self, available: Option<usize>) -> (r: usize)
        ensures
            r == self.threads_of(available),
            r >= 1,
    {
        let n = match self.threads {
            Some(n) => n,
            None => match available {
                Some(n) => n,
                None => FALLBACK_THREADS,
            },
        };
        if n < 1 {
            1
        } else {
            n
        }
    }

    /// What to scan below a root.
    pub fn scan_config(&self, root: FilePath, available: Option<usize>) -> (r: Result<
        ScanConfig,
        CliError,
    >)
        ensures
            r is Ok <==> self.vcs_of() is Some,
            r is Ok ==> r->Ok_0.model() == self.config_of(root@, self.vcs_of()->0, available),
            r is Err ==> r->Err_0->UnsupportedVcs_0@ == self.vcs->0@,
    {
        let vcs = match self.vcs_mode() {
            Ok(v) => v,
            Err(e) => {
                return Err(e);
            },
        };
        let max_file_size: u64 = match self.max_file_size.checked_mul(MEGABYTE) {
            Some(n) => n,
            None => u64::MAX,
        };
        Ok(
            ScanConfig {
                root,
                vcs,
                threads: self.thread_count(available),
                max_file_size,
                exclude_dirs: app::copy_names(&self.exclude_dir),
                include_dirs: app::copy_names(&self.include_dir),
                exclude_exts: lower_all(&self.exclude_ext),
                include_exts: lower_all(&self.include_ext),
                exclude_langs: app::copy_names(&self.exclude_lang),
                include_langs: app::copy_names(&self.include_lang),
                follow_links: self.follow_links,
                hidden: self.hidden,
                no_ignore: self.no_ignore,
            },
        )
    }
}

/// Only `git` is known, in capitals or not.
pub proof fn only_git_is_known(v: Seq<char>)
    ensures
        is_git(v) <==> v.len() == 3 && (v[0] == 'g' || v[0] == 'G') && (v[1] == 'i' || v[1] == 'I')
            && (v[2] == 't' || v[2] == 'T'),
{
    reveal_strlit("git");
    let l = text::lowered(v);
    assert(l.len() == v.len());
    if is_git(v) {
        assert(l[0] == 'g' && l[1] == 'i' && l[2] == 't');
        text::only_capitals_change(v, 0);
        text::only_capitals_change(v, 1);
        text::only_capitals_change(v, 2);
        assert(v[0] as int == 'G' as int || v[0] == 'g');
        assert(v[1] as int == 'I' as int || v[1] == 'i');
        assert(v[2] as int == 'T' as int || v[2] == 't');
    }
    if v.len() == 3 && (v[0] == 'g' || v[0] == 'G') && (v[1] == 'i' || v[1] == 'I') && (v[2] == 't'
        || v[2] == 'T') {
        assert(l =~= "git"@);
    }
}

/// A size in megabytes is 1,048,576 bytes for each, as far as they can be
/// counted.
pub proof fn megabytes_are_bytes(n: u64)
    ensures
        n * 1_048_576 <= u64::MAX ==> megabytes(n) == n * 1_048_576,
        n * 1_048_576 > u64::MAX ==> megabytes(n) == u64::MAX,
{
}

/// As many threads work as were asked for, else as can run at once, else four;
/// one works in any case.
pub proof fn threads_as_asked_for(c: Cli, available: Option<usize>)
    ensures
        c.threads_of(available) >= 1,
        c.threads is Some && c.threads->0 >= 1 ==> c.threads_of(available) == c.threads->0,
        c.threads is Some && c.threads->0 == 0 ==> c.threads_of(available) == 1,
        c.threads is None && available is Some && available->0 >= 1 ==> c.threads_of(available)
            == available->0,
        c.threads is None && available is None ==> c.threads_of(available) == 4,
{
}

/// The scan does what was asked for; extensions are taken in small letters.
pub proof fn the_scan_does_what_was_asked(
    c: Cli,
    root: Seq<u8>,
    vcs: VcsMode,
    available: Option<usize>,
    i: int,
)
    ensures
        ({
            let s = c.config_of(root, vcs, available);
            &&& s.root == root && s.vcs == vcs
            &&& s.follow_links == c.follow_links && s.hidden == c.hidden && s.no_ignore
                == c.no_ignore
            &&& s.exclude_dirs.len() == c.exclude_dir@.len() && s.include_dirs.len()
                == c.include_dir@.len()
            &&& s.exclude_exts.len() == c.exclude_ext@.len() && s.include_exts.len()
                == c.include_ext@.len()
            &&& s.exclude_langs.len() == c.exclude_lang@.len() && s.include_langs.len()
                == c.include_lang@.len()
            &&& 0 <= i < s.exclude_dirs.len() ==> s.exclude_dirs[i] == c.exclude_dir@[i]@
            &&& 0 <= i < s.include_dirs.len() ==> s.include_dirs[i] == c.include_dir@[i]@
            &&& 0 <= i < s.exclude_exts.len() ==> s.exclude_exts[i] == text::lowered(
                c.exclude_ext@[i]@,
            )
            &&& 0 <= i < s.include_exts.len() ==> s.include_exts[i] == text::lowered(
                c.include_ext@[i]@,
            )
            &&& 0 <= i < s.exclude_langs.len() ==> s.exclude_langs[i] == c.exclude_lang@[i]@
            &&& 0 <= i < s.include_langs.len() ==> s.include_langs[i] == c.include_lang@[i]@
        }),
        c.vcs is None ==> c.vcs_of() == Some(VcsMode::Walk),
{
}

} // verus!
