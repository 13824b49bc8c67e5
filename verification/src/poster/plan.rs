//! What is settled before a run starts: names, work plan, workers and rates.

use vstd::prelude::*;
use vstd::string::*;

use crate::article;
use crate::chars;
use crate::config::{Config, ObfuscateMode};
use crate::paths;
use crate::reading;
use crate::progress::state;
use crate::progress::{FileEntry, RunMode};
use crate::text;
use crate::yenc;

verus! {

/// A file of the run: where it is, under which names it is published, and its
/// size.
#[derive(Debug)]
pub struct FileMeta {
    pub path: String,
    /// The published name, with one component per directory level.
    pub real_name: String,
    /// The name in the subject.
    pub subject_name: String,
    /// The name in the yEnc header.
    pub yenc_name: String,
    pub size: u64,
}

/// The name in the subject and the name in the yEnc header, when an obfuscated
/// name is at hand.
pub open spec fn names_of(
    real_name: Seq<char>,
    mode: ObfuscateMode,
    obfuscated: Seq<char>,
) -> (Seq<char>, Seq<char>) {
    match mode {
        ObfuscateMode::Off => (real_name, real_name),
        ObfuscateMode::Subject => (obfuscated, real_name),
        ObfuscateMode::Full => (obfuscated, obfuscated),
    }
}

/// The names under which a file is posted, when an obfuscated name is at hand.
pub fn names_with(real_name: &str, mode: ObfuscateMode, obfuscated: &str) -> (names: (
    String,
    String,
))
    ensures
        (names.0@, names.1@) == names_of(real_name@, mode, obfuscated@),
{
    match mode {
        ObfuscateMode::Off => (String::from_str(real_name), String::from_str(real_name)),
        ObfuscateMode::Subject => (String::from_str(obfuscated), String::from_str(real_name)),
        ObfuscateMode::Full => (String::from_str(obfuscated), String::from_str(obfuscated)),
    }
}

/// Describe a file of the run, under fresh random names where they are to hide
/// the real one.
pub fn file_meta(path: &str, real_name: &str, size: u64, mode: ObfuscateMode) -> (meta: FileMeta)
    ensures
        meta.path@ == path@,
        meta.real_name@ == real_name@,
        meta.size == size,
        exists|high: u64, low: u64|
            (meta.subject_name@, meta.yenc_name@) == names_of(
                real_name@,
                mode,
                #[trigger] article::obfuscated_text(high, low),
            ),
{
    let obfuscated: String = article::obfuscated_name();
    let (subject_name, yenc_name): (String, String) = names_with(
        real_name,
        mode,
        obfuscated.as_str(),
    );
    FileMeta {
        path: String::from_str(path),
        real_name: String::from_str(real_name),
        subject_name,
        yenc_name,
        size,
    }
}

/// Full obfuscation leaves nothing of the real name on the wire, and subject
/// obfuscation nothing in the subject.
pub proof fn law_obfuscation_hides_the_name(a: Seq<char>, b: Seq<char>, obfuscated: Seq<char>)
    ensures
        names_of(a, ObfuscateMode::Full, obfuscated) == names_of(
            b,
            ObfuscateMode::Full,
            obfuscated,
        ),
        names_of(a, ObfuscateMode::Subject, obfuscated).0 == names_of(
            b,
            ObfuscateMode::Subject,
            obfuscated,
        ).0,
        names_of(a, ObfuscateMode::Subject, obfuscated).1 == a,
{
}

/// The entry of a file in the work plan.
pub open spec fn is_entry_of(meta: FileMeta, article_size: usize, entry: FileEntry) -> bool {
    &&& entry.name@ == meta.real_name@
    &&& entry.segments == yenc::segment_count(meta.size as nat, yenc::at_least_one(article_size))
    &&& entry.bytes == meta.size
}

/// The work plan: one entry per source file, with the segment count posting
/// will use.
pub fn file_entries(metas: &[FileMeta], article_size: usize) -> (entries: Vec<FileEntry>)
    ensures
        entries@.len() == metas@.len(),
        forall|i: int|
            0 <= i < entries@.len() ==> is_entry_of(
                metas@[i],
                article_size,
                #[trigger] entries@[i],
            ),
{
    let n: usize = metas.len();
    let mut entries: Vec<FileEntry> = Vec::new();
    let mut i: usize = 0;
    while i < n
        invariant
            i <= n,
            n == metas@.len(),
            entries@.len() == i,
            forall|k: int|
                0 <= k < i ==> is_entry_of(metas@[k], article_size, #[trigger] entries@[k]),
        decreases n - i,
    {
        let segments: Vec<(u64, usize)> = yenc::segments(metas[i].size, article_size);
        entries.push(
            FileEntry {
                name: metas[i].real_name.clone(),
                segments: segments.len() as u64,
                bytes: metas[i].size,
            },
        );
        i = i + 1;
    }
    entries
}

/// What a run of a given configuration does.
pub open spec fn mode_of(par2_only: bool, dry_run: bool) -> RunMode {
    if par2_only {
        RunMode::Par2Only
    } else if dry_run {
        RunMode::DryRun
    } else {
        RunMode::Post
    }
}

/// The number of workers: one per connection, but no more than segments, and
/// none when nothing is posted.
pub open spec fn workers_for(par2_only: bool, connections: nat, segments: nat) -> nat {
    if par2_only {
        0
    } else {
        let wanted: nat = if connections == 0 {
            1
        } else {
            connections
        };
        let useful: nat = if segments == 0 {
            1
        } else {
            segments
        };
        if wanted < useful {
            wanted
        } else {
            useful
        }
    }
}

/// The number of workers: one per connection, but no more than segments, and
/// none when nothing is posted.
pub fn worker_count(par2_only: bool, connections: usize, segments: u64) -> (n: usize)
    ensures
        n == workers_for(par2_only, connections as nat, segments as nat),
{
    if par2_only {
        return 0;
    }
    let wanted: usize = if connections == 0 {
        1
    } else {
        connections
    };
    let useful: u64 = if segments == 0 {
        1
    } else {
        segments
    };
    if (wanted as u64) < useful {
        wanted
    } else {
        useful as usize
    }
}

/// A run that posts anything has a worker, and never more than connections or
/// segments, one of each being the least.
pub proof fn law_workers_are_bounded(connections: nat, segments: nat)
    ensures
        1 <= workers_for(false, connections, segments),
        connections > 0 ==> workers_for(false, connections, segments) <= connections,
        segments > 0 ==> workers_for(false, connections, segments) <= segments,
        workers_for(true, connections, segments) == 0,
{
}

/// Roughly how large the recovery files of a run are: their share of the data
/// and some header bytes per file. Zero when none are posted.
pub open spec fn par2_hint_of(posts: bool, par2: u8, bytes: nat, files: nat) -> nat {
    if posts && par2 > 0 {
        bytes * par2 as nat / 100 + files * 1024
    } else {
        0
    }
}

/// Roughly how large the recovery files of a posting run are, where the
/// arithmetic does not overflow.
fn par2_hint(par2: u8, bytes: u64, files: usize) -> (hint: Option<u64>)
    requires
        par2 > 0,
    ensures
        match hint {
            Some(h) => {
                &&& bytes * par2 <= u64::MAX
                &&& h == par2_hint_of(true, par2, bytes as nat, files as nat)
            },
            None => {
                ||| bytes * par2 > u64::MAX
                ||| par2_hint_of(true, par2, bytes as nat, files as nat) > u64::MAX
            },
        },
{
    let headers: u64 = match (files as u64).checked_mul(1024) {
        Some(headers) => headers,
        None => {
            return None;
        },
    };
    match bytes.checked_mul(par2 as u64) {
        Some(scaled) => (scaled / 100).checked_add(headers),
        None => None,
    }
}

/// The figures of a run fit their types: the sums over its files, the buffers of
/// its workers and, where it posts recovery files, their estimated size.
pub open spec fn run_fits(config: &Config, connections: nat, files: Seq<FileEntry>) -> bool {
    let segments = state::segments_of(files);
    let bytes = state::bytes_of(files);
    let posts = mode_of(config.par2_only, config.dry_run) == RunMode::Post;
    &&& segments <= u64::MAX
    &&& bytes <= u64::MAX
    &&& workers_for(config.par2_only, connections, segments) + 4 <= usize::MAX
    &&& posts && config.par2 > 0 ==> bytes * config.par2 <= u64::MAX
    &&& par2_hint_of(posts, config.par2, bytes, files.len()) <= u64::MAX
}

/// The plan of a run.
pub struct RunPlan {
    pub mode: RunMode,
    /// `host:port` of the server, when there is one to post to.
    pub target: Option<String>,
    pub files: Vec<FileEntry>,
    /// Segments of all files.
    pub segments: u64,
    pub workers: usize,
    /// Article buffers to start with.
    pub buffers: usize,
    pub par2_bytes_hint: u64,
    /// Whether segments posted earlier are skipped.
    pub resumes: bool,
}

/// Plan a run over files, unless its figures exceed their types. `connections`
/// is the number of connections in all, and `has_state` whether there is a place
/// to keep the state of the run.
pub fn plan_run(metas: &[FileMeta], config: &Config, connections: usize, has_state: bool) -> (plan:
    Option<RunPlan>)
    ensures
        match plan {
            Some(p) => {
                &&& p.mode == mode_of(config.par2_only, config.dry_run)
                &&& state::chars_in(p.target) == if p.mode == RunMode::Post {
                    Some(config.host@ + ":"@ + text::decimal(config.port as nat))
                } else {
                    None
                }
                &&& p.files@.len() == metas@.len()
                &&& forall|i: int|
                    0 <= i < p.files@.len() ==> is_entry_of(
                        metas@[i],
                        config.article_size,
                        #[trigger] p.files@[i],
                    )
                &&& p.segments == state::segments_of(p.files@)
                &&& p.workers == workers_for(
                    config.par2_only,
                    connections as nat,
                    p.segments as nat,
                )
                &&& p.buffers == p.workers + 4
                &&& p.par2_bytes_hint == par2_hint_of(
                    p.mode == RunMode::Post,
                    config.par2,
                    state::bytes_of(p.files@),
                    metas@.len(),
                )
                &&& p.resumes == (config.resume && has_state && p.mode == RunMode::Post)
                &&& run_fits(config, connections as nat, p.files@)
            },
            None => forall|files: Seq<FileEntry>|
                files.len() == metas@.len() && (forall|i: int|
                    0 <= i < files.len() ==> is_entry_of(
                        metas@[i],
                        config.article_size,
                        #[trigger] files[i],
                    )) ==> !#[trigger] run_fits(config, connections as nat, files),
        },
{
    let files: Vec<FileEntry> = file_entries(metas, config.article_size);
    let n: usize = metas.len();
    proof {
        assert forall|other: Seq<FileEntry>|
            other.len() == metas@.len() && (forall|i: int|
                0 <= i < other.len() ==> is_entry_of(
                    metas@[i],
                    config.article_size,
                    #[trigger] other[i],
                )) implies #[trigger] run_fits(config, connections as nat, other) == run_fits(
            config,
            connections as nat,
            files@,
        ) by {
            lemma_same_sums(metas@, config.article_size, other, files@);
        }
    }
    let (segments, bytes): (u64, u64) = match state::sums(files.as_slice()) {
        Some(sums) => sums,
        None => {
            return None;
        },
    };
    let mode: RunMode = if config.par2_only {
        RunMode::Par2Only
    } else if config.dry_run {
        RunMode::DryRun
    } else {
        RunMode::Post
    };
    let posts: bool = mode == RunMode::Post;
    let target: Option<String> = if posts {
        let mut t: String = config.host.clone();
        t.append(":");
        text::push_decimal(&mut t, config.port as u64);
        Some(t)
    } else {
        None
    };
    let workers: usize = worker_count(config.par2_only, connections, segments);
    if workers > usize::MAX - 4 {
        return None;
    }
    let par2_bytes_hint: u64 = if posts && config.par2 > 0 {
        match par2_hint(config.par2, bytes, n) {
            Some(hint) => hint,
            None => {
                return None;
            },
        }
    } else {
        0
    };
    Some(
        RunPlan {
            mode,
            target,
            files,
            segments,
            workers,
            buffers: workers + 4,
            par2_bytes_hint,
            resumes: config.resume && has_state && posts,
        },
    )
}

proof fn lemma_same_sums(
    metas: Seq<FileMeta>,
    article_size: usize,
    a: Seq<FileEntry>,
    b: Seq<FileEntry>,
)
    requires
        a.len() == b.len(),
        a.len() <= metas.len(),
        forall|i: int|
            0 <= i < a.len() ==> is_entry_of(metas[i], article_size, #[trigger] a[i]),
        forall|i: int|
            0 <= i < b.len() ==> is_entry_of(metas[i], article_size, #[trigger] b[i]),
    ensures
        state::segments_of(a) == state::segments_of(b),
        state::bytes_of(a) == state::bytes_of(b),
    decreases a.len(),
{
    if a.len() > 0 {
        lemma_same_sums(metas, article_size, a.drop_last(), b.drop_last());
        assert(is_entry_of(metas[a.len() - 1], article_size, a[a.len() - 1]));
        assert(is_entry_of(metas[a.len() - 1], article_size, b[a.len() - 1]));
    }
}

/// The share of one connection in the upload rate, at least 1; 0 is unlimited.
pub open spec fn rate_share(upload_rate: nat, connections: nat) -> nat {
    if upload_rate == 0 {
        0
    } else {
        let share = upload_rate / if connections == 0 {
            1
        } else {
            connections
        };
        if share == 0 {
            1
        } else {
            share
        }
    }
}

/// The upload rate of one worker: an equal share of the global rate.
pub fn worker_rate(upload_rate: u64, connections: usize) -> (rate: u64)
    ensures
        rate == rate_share(upload_rate as nat, connections as nat),
{
    if upload_rate == 0 {
        return 0;
    }
    let total: u64 = if connections == 0 {
        1
    } else {
        connections as u64
    };
    let share: u64 = upload_rate / total;
    if share == 0 {
        1
    } else {
        share
    }
}

/// Together the workers keep to the upload rate, as long as it is at least one
/// byte per second and connection.
pub proof fn law_workers_keep_to_the_rate(upload_rate: nat, connections: nat)
    requires
        0 < connections <= upload_rate,
    ensures
        0 < rate_share(upload_rate, connections),
        rate_share(upload_rate, connections) * connections <= upload_rate,
{
    vstd::arithmetic::div_mod::lemma_fundamental_div_mod(upload_rate as int, connections as int);
    let share = upload_rate as int / connections as int;
    assert(share >= 1) by (nonlinear_arith)
        requires
            upload_rate == connections * share + upload_rate as int % connections as int,
            (upload_rate as int % connections as int) < connections,
            0 < connections <= upload_rate,
    ;
    assert(share * connections == connections * share) by (nonlinear_arith);
}

/// What comes before the first slash of a name.
pub open spec fn base_of(name: Seq<char>) -> Seq<char> {
    name.take(chars::first_index(name, '/'))
}

/// Base name for the PAR2 set's on-disk files. A published name may be a
/// relative path (`season01/ep01.mkv`); the PAR2 index and volume files live
/// at a single level, so they take the top-level component (the root folder,
/// or the file's own name for a single-file upload) as their base.
pub fn par2_base(name: &str) -> (base: String)
    ensures
        base@ == base_of(name@),
{
    let all: Vec<char> = text::chars_of(name);
    let k: usize = chars::find(all.as_slice(), '/');
    let front: &[char] = chars::part(all.as_slice(), 0, k);
    assert(front@ =~= base_of(name@));
    text::string_of(front)
}

/// The base of a name is its first component: it holds no slash, and is the whole
/// name or stands before its first slash.
pub proof fn law_bases_are_first_components(name: Seq<char>)
    ensures
        reading::lacks(base_of(name), '/'),
        base_of(name) == name || exists|rest: Seq<char>|
            name == #[trigger] (base_of(name) + seq!['/'] + rest),
{
    chars::lemma_first_index(name, '/');
    let k = chars::first_index(name, '/');
    let base = base_of(name);
    assert forall|i: int| 0 <= i < base.len() implies #[trigger] base[i] != '/' by {
        assert(base[i] == name[i]);
    }
    if k < name.len() {
        assert(name =~= base + seq!['/'] + name.skip(k + 1));
    } else {
        assert(base =~= name);
    }
}

/// The number of components of a name.
pub open spec fn depth_of(name: Seq<char>) -> nat
    decreases name.len(),
{
    if name.len() == 0 {
        1
    } else if name.last() == '/' {
        depth_of(name.drop_last()) + 1
    } else {
        depth_of(name.drop_last())
    }
}

/// Where the recovery files of a file go: as many levels above it as its
/// published name has components.
pub open spec fn output_dir_of(path: Seq<char>, real_name: Seq<char>) -> Seq<char> {
    match paths::ancestor_of(path, depth_of(real_name)) {
        Some(dir) => if dir.len() == 0 {
            "."@
        } else {
            dir
        },
        None => "."@,
    }
}

/// Directory where `--par2-only` writes the recovery set.
///
/// File Description packets store each file's *relative* name, so `par2` must
/// be run from the directory that contains the root folder. The published
/// name has one path component per directory level; stripping that many
/// components off the filesystem path lands exactly there. A loose file
/// (single component) yields its parent directory.
pub fn par2_output_dir(meta: &FileMeta) -> (dir: String)
    ensures
        dir@ == output_dir_of(meta.path@, meta.real_name@),
{
    let name: Vec<char> = text::chars_of(meta.real_name.as_str());
    let n: usize = name.len();
    let mut depth: usize = 0;
    let mut i: usize = 0;
    assert(name@.take(0) =~= Seq::empty());
    while i < n
        invariant
            i <= n,
            n == name@.len(),
            depth <= i,
            depth + 1 == depth_of(name@.take(i as int)),
        decreases n - i,
    {
        assert(name@.take(i + 1).drop_last() =~= name@.take(i as int));
        if name[i] == '/' {
            depth = depth + 1;
        }
        i = i + 1;
    }
    assert(name@.take(n as int) =~= name@);
    let path: Vec<char> = text::chars_of(meta.path.as_str());
    // One level for the file itself, and one for each slash in its name.
    match paths::parent(path.as_slice()) {
        Some(up) => {
            proof {
                lemma_ancestor_of_parent(path@, up@, depth as nat);
            }
            match paths::ancestor(up, depth) {
                Some(dir) => {
                    if dir.len() == 0 {
                        String::from_str(".")
                    } else {
                        text::string_of(dir)
                    }
                },
                None => String::from_str("."),
            }
        },
        None => {
            proof {
                lemma_no_parent(path@, (depth + 1) as nat);
            }
            String::from_str(".")
        },
    }
}

proof fn lemma_ancestor_of_parent(path: Seq<char>, up: Seq<char>, n: nat)
    requires
        paths::parent_of(path) == Some(up),
    ensures
        paths::ancestor_of(path, n + 1) == paths::ancestor_of(up, n),
    decreases n,
{
    if n > 0 {
        lemma_ancestor_of_parent(path, up, (n - 1) as nat);
    } else {
        assert(paths::ancestor_of(path, 0) == Some(path));
    }
}

proof fn lemma_no_parent(path: Seq<char>, n: nat)
    requires
        n > 0,
        paths::parent_of(path) is None,
    ensures
        paths::ancestor_of(path, n) is None,
    decreases n,
{
    if n > 1 {
        lemma_no_parent(path, (n - 1) as nat);
    } else {
        assert(paths::ancestor_of(path, 0) == Some(path));
    }
}

/// A path `dir` with components below it.
pub open spec fn path_below(dir: Seq<char>, parts: Seq<Seq<char>>) -> Seq<char>
    decreases parts.len(),
{
    if parts.len() == 0 {
        dir
    } else {
        path_below(dir, parts.drop_last()) + seq!['/'] + parts.last()
    }
}

/// Components with slashes between them.
pub open spec fn name_of_parts(parts: Seq<Seq<char>>) -> Seq<char>
    decreases parts.len(),
{
    if parts.len() == 0 {
        Seq::empty()
    } else if parts.len() == 1 {
        parts[0]
    } else {
        name_of_parts(parts.drop_last()) + seq!['/'] + parts.last()
    }
}

/// A component of a path that leads further.
pub open spec fn is_component(c: Seq<char>) -> bool {
    c.len() > 0 && reading::lacks(c, '/') && c != seq!['.']
}

proof fn lemma_depth_of_component(name: Seq<char>, c: Seq<char>)
    requires
        reading::lacks(c, '/'),
    ensures
        depth_of(name + c) == depth_of(name),
    decreases c.len(),
{
    if c.len() == 0 {
        assert(name + c =~= name);
    } else {
        let d = c.drop_last();
        assert forall|i: int| 0 <= i < d.len() implies #[trigger] d[i] != '/' by {
            assert(d[i] == c[i]);
        }
        lemma_depth_of_component(name, d);
        assert((name + c).drop_last() =~= name + d);
        assert((name + c).last() == c[c.len() - 1]);
    }
}

proof fn lemma_depth(parts: Seq<Seq<char>>)
    requires
        parts.len() > 0,
        forall|i: int| 0 <= i < parts.len() ==> is_component(#[trigger] parts[i]),
    ensures
        depth_of(name_of_parts(parts)) == parts.len(),
    decreases parts.len(),
{
    let last = parts[parts.len() - 1];
    if parts.len() == 1 {
        lemma_depth_of_component(Seq::empty(), last);
        assert(Seq::<char>::empty() + last =~= last);
    } else {
        let rest = parts.drop_last();
        assert forall|i: int| 0 <= i < rest.len() implies is_component(#[trigger] rest[i]) by {
            assert(rest[i] == parts[i]);
        }
        lemma_depth(rest);
        let name = name_of_parts(rest) + seq!['/'];
        assert(name.drop_last() =~= name_of_parts(rest));
        lemma_depth_of_component(name, last);
    }
}

proof fn lemma_last_start(p: Seq<char>, c: Seq<char>)
    requires
        reading::lacks(c, '/'),
    ensures
        paths::last_start(p + seq!['/'] + c) == p.len() + 1,
    decreases c.len(),
{
    let s = p + seq!['/'] + c;
    if c.len() == 0 {
        assert(s.last() == '/');
    } else {
        let d = c.drop_last();
        assert forall|i: int| 0 <= i < d.len() implies #[trigger] d[i] != '/' by {
            assert(d[i] == c[i]);
        }
        lemma_last_start(p, d);
        assert(s.drop_last() =~= p + seq!['/'] + d);
        assert(s.last() == c[c.len() - 1]);
    }
}

proof fn lemma_parent(p: Seq<char>, c: Seq<char>)
    requires
        p.len() > 0,
        paths::trimmed_path(p) == p,
        is_component(c),
    ensures
        paths::parent_of(p + seq!['/'] + c) == Some(p),
        paths::trimmed_path(p + seq!['/'] + c) == p + seq!['/'] + c,
{
    let s = p + seq!['/'] + c;
    let up = p + seq!['/'];
    lemma_last_start(p, c);
    assert(s.last() == c[c.len() - 1]);
    if c.len() == 1 {
        if c[0] == '.' {
            assert(c =~= seq!['.']);
        }
    } else {
        assert(s[s.len() - 2] == c[c.len() - 2]);
    }
    assert(paths::trimmed_path(s) == s);
    assert(s.len() > 1);
    assert(s.take(p.len() as int + 1) =~= up);
    assert(up.drop_last() =~= p);
    assert(up.last() == '/');
}

proof fn lemma_ancestor(dir: Seq<char>, parts: Seq<Seq<char>>, n: nat)
    requires
        dir.len() > 0,
        paths::trimmed_path(dir) == dir,
        forall|i: int| 0 <= i < parts.len() ==> is_component(#[trigger] parts[i]),
        n <= parts.len(),
    ensures
        paths::ancestor_of(path_below(dir, parts), n) == Some(
            path_below(dir, parts.take(parts.len() - n)),
        ),
    decreases n,
{
    if n == 0 {
        assert(parts.take(parts.len() as int) =~= parts);
    } else {
        lemma_ancestor(dir, parts, (n - 1) as nat);
        let here = parts.take(parts.len() - n + 1);
        let above = parts.take(parts.len() - n);
        assert(here.drop_last() =~= above);
        let c = parts[parts.len() - n];
        assert(here.last() == c && is_component(c));
        lemma_path_below(dir, above);
        lemma_parent(path_below(dir, above), c);
    }
}

proof fn lemma_path_below(dir: Seq<char>, parts: Seq<Seq<char>>)
    requires
        dir.len() > 0,
        paths::trimmed_path(dir) == dir,
        forall|i: int| 0 <= i < parts.len() ==> is_component(#[trigger] parts[i]),
    ensures
        path_below(dir, parts).len() > 0,
        paths::trimmed_path(path_below(dir, parts)) == path_below(dir, parts),
    decreases parts.len(),
{
    if parts.len() > 0 {
        let rest = parts.drop_last();
        assert forall|i: int| 0 <= i < rest.len() implies is_component(#[trigger] rest[i]) by {
            assert(rest[i] == parts[i]);
        }
        lemma_path_below(dir, rest);
        assert(is_component(parts[parts.len() - 1]));
        lemma_parent(path_below(dir, rest), parts.last());
    }
}

/// The recovery files of a file go to the directory from which its published name
/// leads to it.
pub proof fn law_published_names_lead_back(dir: Seq<char>, parts: Seq<Seq<char>>)
    requires
        dir.len() > 0,
        paths::trimmed_path(dir) == dir,
        parts.len() > 0,
        forall|i: int| 0 <= i < parts.len() ==> is_component(#[trigger] parts[i]),
    ensures
        output_dir_of(path_below(dir, parts), name_of_parts(parts)) == dir,
{
    lemma_depth(parts);
    lemma_ancestor(dir, parts, parts.len());
    assert(parts.take(0) =~= Seq::empty());
}

} // verus!
