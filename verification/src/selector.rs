//! The file selector: a validated scan configuration, and the rules that
//! decide which traversal entries are scanned. The caller walks the
//! directory tree and hands each entry's path, depth and kind to the
//! selector; the selector applies the suffix, depth, default-directory,
//! inclusion and exclusion rules.

use vstd::prelude::*;
use vstd::string::*;

use crate::patterns::{regex_is_match, regex_match, regex_new, regex_source, regex_valid};
use crate::text::{chars_contain, chars_have_suffix, contains_seq, has_suffix, str_chars};

verus! {

/// Why a configuration was rejected.
#[derive(Clone, Copy, Debug, PartialEq, Eq, Structural)]
pub enum ConfigError {
    /// The inclusion pattern is not a valid regular expression.
    InvalidIncludePattern,
    /// The exclusion pattern is not a valid regular expression.
    InvalidExcludePattern,
    /// The marker vocabulary names the same marker twice.
    DuplicateMarkerName,
}

/// A validated scan configuration.
pub struct ScanConfig {
    /// The directory the traversal starts from.
    pub root: String,
    /// Compiled inclusion pattern: when set, a path must match it.
    pub inclusion: Option<regex::Regex>,
    /// Compiled exclusion pattern: when set, a path must not match it.
    pub exclusion: Option<regex::Regex>,
    /// Largest accepted depth; a file directly in the root has depth zero.
    pub max_depth: Option<usize>,
    /// When set, paths under the default-excluded directories are skipped.
    pub skip_default_dirs: bool,
    /// Required path suffix of a source file.
    pub source_suffix: String,
    /// The marker names to scan for, unique, in enumeration order.
    pub vocabulary: Vec<String>,
}

/// Mathematical model of a [`ScanConfig`]; the compiled patterns appear as
/// their pattern strings.
pub struct ScanConfigView {
    pub root: Seq<char>,
    pub inclusion: Option<Seq<char>>,
    pub exclusion: Option<Seq<char>>,
    pub max_depth: Option<int>,
    pub skip_default_dirs: bool,
    pub source_suffix: Seq<char>,
    pub vocabulary: Seq<Seq<char>>,
}

impl View for ScanConfig {
    type V = ScanConfigView;

    open spec fn view(&self) -> ScanConfigView {
        ScanConfigView {
            root: self.root@,
            inclusion: match self.inclusion {
                Some(re) => Some(regex_source(re)),
                None => None,
            },
            exclusion: match self.exclusion {
                Some(re) => Some(regex_source(re)),
                None => None,
            },
            max_depth: match self.max_depth {
                Some(d) => Some(d as int),
                None => None,
            },
            skip_default_dirs: self.skip_default_dirs,
            source_suffix: self.source_suffix@,
            vocabulary: self.vocabulary.deep_view(),
        }
    }
}

/// No two names in the list are equal.
pub open spec fn distinct_names(v: Seq<Seq<char>>) -> bool {
    forall|i: int, j: int| 0 <= i < j < v.len() ==> v[i] != v[j]
}

/// Whether the list holds two equal names.
fn has_duplicate(names: &Vec<String>) -> (r: bool)
    ensures
        r == !distinct_names(names.deep_view()),
{
    let n = names.len();
    let mut i: usize = 0;
    while i < n
        invariant
            i <= n,
            n == names@.len(),
            forall|a: int, b: int| 0 <= a < b < n && a < i ==> names.deep_view()[a]
                != names.deep_view()[b],
        decreases n - i,
    {
        let mut j = i + 1;
        while j < n
            invariant
                i < j,
                i < n,
                n == names@.len(),
                forall|b: int| i < b < j ==> names.deep_view()[i as int]
                    != names.deep_view()[b],
            decreases n - j,
        {
            if names[i] == names[j] {
                proof {
                    assert(names.deep_view()[i as int] == names@[i as int]@);
                    assert(names.deep_view()[j as int] == names@[j as int]@);
                    assert(names.deep_view()[i as int] == names.deep_view()[j as int]);
                }
                return true;
            }
            j += 1;
        }
        i += 1;
    }
    false
}

/// The directory names skipped by default: build output, dependency caches,
/// version-control and IDE metadata.
pub open spec fn default_dirs_spec() -> Seq<Seq<char>> {
    seq![
        "target/"@,
        "node_modules/"@,
        ".git/"@,
        ".idea/"@,
        ".vscode/"@,
        "dist/"@,
        "build/"@,
    ]
}

/// The default-excluded directory names as owned strings.
pub fn default_exclude_dirs() -> (r: Vec<String>)
    ensures
        r.deep_view() == default_dirs_spec(),
{
    let mut r: Vec<String> = Vec::new();
    r.push(String::from_str("target/"));
    r.push(String::from_str("node_modules/"));
    r.push(String::from_str(".git/"));
    r.push(String::from_str(".idea/"));
    r.push(String::from_str(".vscode/"));
    r.push(String::from_str("dist/"));
    r.push(String::from_str("build/"));
    proof {
        assert(r.deep_view() =~= default_dirs_spec());
    }
    r
}

/// The path runs through one of the default-excluded directories.
pub open spec fn in_default_dir(path: Seq<char>) -> bool {
    exists|k: int| 0 <= k < default_dirs_spec().len() && contains_seq(
        path,
        #[trigger] default_dirs_spec()[k],
    )
}

/// Runtime test for [`in_default_dir`].
fn hits_default_dir(path_chars: &Vec<char>) -> (r: bool)
    ensures
        r == in_default_dir(path_chars@),
{
    let dirs = default_exclude_dirs();
    let nd = dirs.len();
    let mut k: usize = 0;
    while k < nd
        invariant
            k <= nd,
            nd == dirs@.len(),
            dirs.deep_view() == default_dirs_spec(),
            forall|q: int| 0 <= q < k ==> !contains_seq(
                path_chars@,
                #[trigger] default_dirs_spec()[q],
            ),
        decreases nd - k,
    {
        let dir_chars = str_chars(dirs[k].as_str());
        proof {
            assert(dir_chars@ == default_dirs_spec()[k as int]);
        }
        if chars_contain(path_chars, &dir_chars) {
            assert(in_default_dir(path_chars@));
            return true;
        }
        k += 1;
    }
    false
}

impl ScanConfig {
    /// Validate the raw inputs and build the configuration. The patterns
    /// must compile and the vocabulary must be free of duplicates; the
    /// inclusion pattern is checked first, then the exclusion pattern, then
    /// the vocabulary.
    pub fn new(
        root: String,
        include_pattern: Option<String>,
        exclude_pattern: Option<String>,
        max_depth: Option<usize>,
        skip_default_dirs: bool,
        source_suffix: String,
        vocabulary: Vec<String>,
    ) -> (r: Result<ScanConfig, ConfigError>)
        ensures
            r is Ok <==> (match include_pattern {
                Some(p) => regex_valid(p@),
                None => true,
            } && (match exclude_pattern {
                Some(p) => regex_valid(p@),
                None => true,
            }) && distinct_names(vocabulary.deep_view())),
            r matches Ok(cfg) ==> {
                &&& cfg@.root == root@
                &&& cfg@.inclusion == (match include_pattern {
                    Some(p) => Some(p@),
                    None => None::<Seq<char>>,
                })
                &&& cfg@.exclusion == (match exclude_pattern {
                    Some(p) => Some(p@),
                    None => None::<Seq<char>>,
                })
                &&& cfg@.max_depth == (match max_depth {
                    Some(d) => Some(d as int),
                    None => None::<int>,
                })
                &&& cfg@.skip_default_dirs == skip_default_dirs
                &&& cfg@.source_suffix == source_suffix@
                &&& cfg@.vocabulary == vocabulary.deep_view()
            },
            r matches Err(e) ==> {
                &&& (e == ConfigError::InvalidIncludePattern <==> (
                include_pattern matches Some(p) && !regex_valid(p@)))
                &&& (e == ConfigError::InvalidExcludePattern <==> ((match include_pattern {
                    Some(p) => regex_valid(p@),
                    None => true,
                }) && (exclude_pattern matches Some(p) && !regex_valid(p@))))
            },
    {
        let inclusion = match include_pattern {
            Some(p) => match regex_new(p.as_str()) {
                Some(re) => Some(re),
                None => {
                    return Err(ConfigError::InvalidIncludePattern);
                },
            },
            None => None,
        };
        let exclusion = match exclude_pattern {
            Some(p) => match regex_new(p.as_str()) {
                Some(re) => Some(re),
                None => {
                    return Err(ConfigError::InvalidExcludePattern);
                },
            },
            None => None,
        };
        if has_duplicate(&vocabulary) {
            return Err(ConfigError::DuplicateMarkerName);
        }
        Ok(
            ScanConfig {
                root,
                inclusion,
                exclusion,
                max_depth,
                skip_default_dirs,
                source_suffix,
                vocabulary,
            },
        )
    }
}

/// One entry of the caller's directory traversal.
#[derive(Debug)]
pub struct FileEntry {
    /// The entry's path, as the traversal reports it.
    pub path: String,
    /// Directory levels between the root and the entry; a file directly in
    /// the root has depth zero.
    pub depth: usize,
    /// Whether the entry is a regular file.
    pub is_file: bool,
}

/// Mathematical model of a [`FileEntry`].
pub struct FileEntryView {
    pub path: Seq<char>,
    pub depth: int,
    pub is_file: bool,
}

impl View for FileEntry {
    type V = FileEntryView;

    open spec fn view(&self) -> FileEntryView {
        FileEntryView { path: self.path@, depth: self.depth as int, is_file: self.is_file }
    }
}

impl DeepView for FileEntry {
    type V = FileEntryView;

    open spec fn deep_view(&self) -> FileEntryView {
        self.view()
    }
}

/// The selection rule: an entry is scanned exactly when it is a regular
/// file, bears the source suffix, lies within the depth bound, avoids the
/// default-excluded directories when asked to, matches the inclusion pattern
/// if one is set, and does not match the exclusion pattern if one is set.
pub open spec fn entry_accepted(cfg: ScanConfigView, e: FileEntryView) -> bool {
    &&& e.is_file
    &&& has_suffix(e.path, cfg.source_suffix)
    &&& (cfg.max_depth matches Some(d) ==> e.depth <= d)
    &&& (cfg.skip_default_dirs ==> !in_default_dir(e.path))
    &&& (cfg.inclusion matches Some(p) ==> regex_match(p, e.path))
    &&& (cfg.exclusion matches Some(p) ==> !regex_match(p, e.path))
}

/// Runtime test for [`entry_accepted`].
pub fn accept_entry(cfg: &ScanConfig, entry: &FileEntry) -> (r: bool)
    ensures
        r == entry_accepted(cfg@, entry@),
{
    if !entry.is_file {
        return false;
    }
    let path_chars = str_chars(entry.path.as_str());
    let suffix_chars = str_chars(cfg.source_suffix.as_str());
    if !chars_have_suffix(&path_chars, &suffix_chars) {
        return false;
    }
    if let Some(d) = cfg.max_depth {
        if entry.depth > d {
            return false;
        }
    }
    if cfg.skip_default_dirs && hits_default_dir(&path_chars) {
        return false;
    }
    if let Some(re) = &cfg.inclusion {
        if !regex_is_match(re, entry.path.as_str()) {
            return false;
        }
    }
    if let Some(re) = &cfg.exclusion {
        if regex_is_match(re, entry.path.as_str()) {
            return false;
        }
    }
    true
}

/// The paths of the accepted entries, in traversal order.
pub open spec fn selected_paths(cfg: ScanConfigView, entries: Seq<FileEntryView>) -> Seq<
    Seq<char>,
>
    decreases entries.len(),
{
    if entries.len() == 0 {
        seq![]
    } else {
        let rest = selected_paths(cfg, entries.drop_last());
        if entry_accepted(cfg, entries.last()) {
            rest.push(entries.last().path)
        } else {
            rest
        }
    }
}

/// Filter a traversal's entries down to the paths to scan, in order.
pub fn select_files(cfg: &ScanConfig, entries: &Vec<FileEntry>) -> (r: Vec<String>)
    ensures
        r.deep_view() == selected_paths(cfg@, entries.deep_view()),
{
    let ghost entriesv = entries.deep_view();
    let mut r: Vec<String> = Vec::new();
    let n = entries.len();
    let mut i: usize = 0;
    while i < n
        invariant
            i <= n,
            n == entries@.len(),
            entriesv == entries.deep_view(),
            r.deep_view() == selected_paths(cfg@, entriesv.take(i as int)),
        decreases n - i,
    {
        let ghost prev_dv = r.deep_view();
        let entry = &entries[i];
        let accepted = accept_entry(cfg, entry);
        if accepted {
            r.push(entry.path.clone());
        }
        proof {
            assert(entriesv.take(i + 1).drop_last() =~= entriesv.take(i as int));
            assert(entriesv.take(i + 1).last() == entriesv[i as int]);
            assert(entriesv[i as int] == entry@);
            if accepted {
                assert(r.deep_view() =~= prev_dv.push(entry.path@));
            }
        }
        i += 1;
    }
    proof {
        assert(entriesv.take(n as int) =~= entriesv);
    }
    r
}

/// Every selected path comes from an accepted traversal entry.
pub proof fn lemma_selected_paths_accepted(
    cfg: ScanConfigView,
    entries: Seq<FileEntryView>,
    i: int,
)
    requires
        0 <= i < selected_paths(cfg, entries).len(),
    ensures
        exists|j: int| 0 <= j < entries.len() && entry_accepted(cfg, #[trigger] entries[j])
            && entries[j].path == selected_paths(cfg, entries)[i],
    decreases entries.len(),
{
    let rest = selected_paths(cfg, entries.drop_last());
    if entry_accepted(cfg, entries.last()) && i == rest.len() {
        assert(entries[entries.len() - 1] == entries.last());
    } else {
        lemma_selected_paths_accepted(cfg, entries.drop_last(), i);
        let j = choose|j: int| 0 <= j < entries.drop_last().len() && entry_accepted(
            cfg,
            #[trigger] entries.drop_last()[j],
        ) && entries.drop_last()[j].path == selected_paths(cfg, entries.drop_last())[i];
        assert(entries.drop_last()[j] == entries[j]);
    }
}

/// Every selected path bears the source suffix, avoids the default-excluded
/// directories when skipping is on, matches the inclusion pattern if one is
/// set, and does not match the exclusion pattern if one is set.
pub proof fn lemma_selected_path_properties(
    cfg: ScanConfigView,
    entries: Seq<FileEntryView>,
    i: int,
)
    requires
        0 <= i < selected_paths(cfg, entries).len(),
    ensures
        has_suffix(selected_paths(cfg, entries)[i], cfg.source_suffix),
        cfg.skip_default_dirs ==> !in_default_dir(selected_paths(cfg, entries)[i]),
        cfg.inclusion matches Some(p) ==> regex_match(p, selected_paths(cfg, entries)[i]),
        cfg.exclusion matches Some(p) ==> !regex_match(p, selected_paths(cfg, entries)[i]),
{
    lemma_selected_paths_accepted(cfg, entries, i);
}

/// An entry deeper than the depth bound is never accepted; in particular,
/// with a bound of zero only entries directly in the root can be selected.
pub proof fn lemma_depth_bound(cfg: ScanConfigView, e: FileEntryView, d: int)
    requires
        cfg.max_depth == Some(d),
        e.depth > d,
    ensures
        !entry_accepted(cfg, e),
{
}

} // verus!
