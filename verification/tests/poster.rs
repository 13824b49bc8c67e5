//! Posting: geometry, plans, deliveries, checks and what is recorded.

use pesto::article::{generate_message_id, obfuscated_name};
use pesto::config::{Config, FileConfig, ObfuscateMode, Overrides};
use pesto::nntp::post_payload;
use pesto::par2::encoder::RecoveryEncoder;
use pesto::par2::layout::{index_name, place_slice, plan_volumes, volume_name, Placement, Volume};
use pesto::par2::packet::{md5, SliceChecksum};
use pesto::poster::buffers::BufferPool;
use pesto::poster::check::{strip_brackets, ArticleCheck, CheckReply};
use pesto::poster::geometry::{
    optimal_par2_slice_size, par2_grouping, plan_passes, queue_limit, recovery_count,
};
use pesto::poster::machine::{
    count_cores, detect_par2_simd, performance_core_count, physical_core_count, resolve_date,
    resolve_date_at, CpuFeatures, CpuTopology,
};
use pesto::poster::order::{arrange, sort_order, sort_segments, SortKey};
use pesto::poster::par2_worker::{perform, Par2Work};
use pesto::poster::plan::{
    file_meta, names_with, par2_base, par2_output_dir, plan_run, worker_count, worker_rate, FileMeta,
};
use pesto::poster::slices::{distribute_checksums, feed_par2_slice, Pass};
use pesto::poster::worker::{
    build_article, posted_segment, record_failure, resumed_segment, Delivery, Reply, Stage,
};
use pesto::poster::{PostOutcome, PostedSegment};
use pesto::progress::RunMode;
use pesto::yenc::{segments, PartSpec};

#[test]
fn message_id_domain_is_random() {
    let a = generate_message_id(1);
    let b = generate_message_id(2);
    assert_ne!(a, b);
    assert!(a.contains('@'));
    assert!(!a.contains("blocknews") && !a.contains("pesto"));
}

#[test]
fn par2_base_single_component() {
    assert_eq!(par2_base("movie.mkv"), "movie.mkv");
}

#[test]
fn par2_base_relative_path_returns_root_folder() {
    assert_eq!(par2_base("Season01/ep01.mkv"), "Season01");
    assert_eq!(par2_base("a/b/c.bin"), "a");
}

#[test]
fn par2_base_empty_string() {
    // Should not panic; returns the whole (empty) string.
    assert_eq!(par2_base(""), "");
}

#[test]
fn optimal_slice_single_file_within_target() {
    // 500 articles with 10% redundancy: well within limits.
    let (sz, slices) = optimal_par2_slice_size(&[500], 750_000, 10);
    assert!(slices <= 32768);
    assert!((slices * 10 / 100) <= 65535);
    assert_eq!(
        sz % 750_000,
        0,
        "slice size must be a multiple of article_size"
    );
}

#[test]
fn optimal_slice_no_redundancy_respects_32768_limit() {
    // 5000 files × 1 article: well within 32768, should satisfy the limit.
    let per_file = vec![1usize; 5_000];
    let (sz, slices) = optimal_par2_slice_size(&per_file, 100, 0);
    assert!(slices <= 32768, "slices={slices}");
    assert!(sz >= 100);
}

#[test]
fn optimal_slice_too_many_files_returns_best_effort() {
    // 50 000 files × 1 article each: minimum possible is 50 000 slices > 32 768.
    // The function must not panic and should return the minimum achievable.
    let per_file = vec![1usize; 50_000];
    let (_sz, slices) = optimal_par2_slice_size(&per_file, 100, 0);
    assert_eq!(slices, 50_000, "slices={slices}");
}

#[test]
fn optimal_slice_high_redundancy_respects_65535_recovery_limit() {
    // 200% redundancy: max input slices = 65535 * 100 / 200 = 32767.
    // 100 files × 400 articles each = 40 000 total articles.
    // Grouping can reduce to ~1000 slices, well within 32767.
    let per_file = vec![400usize; 100];
    let (sz, slices) = optimal_par2_slice_size(&per_file, 100, 200);
    let recovery = slices * 200 / 100;
    assert!(slices <= 32767, "slices={slices}");
    assert!(recovery <= 65535, "recovery={recovery}");
    assert!(sz >= 100);
}

#[test]
fn optimal_slice_mixed_sizes() {
    // One large file (10 000 articles) and many tiny files (1 article each).
    let mut per_file = vec![1usize; 5_000];
    per_file.push(10_000);
    let (sz, slices) = optimal_par2_slice_size(&per_file, 750_000, 10);
    assert!(slices <= 32768, "slices={slices}");
    assert!((slices * 10 / 100) <= 65535);
    assert_eq!(sz % 750_000, 0);
}

#[test]
fn optimal_slice_empty_input() {
    let (sz, slices) = optimal_par2_slice_size(&[], 750_000, 10);
    assert_eq!(slices, 0);
    assert_eq!(sz, 750_000);
}

#[test]
fn optimal_slice_single_article() {
    let (sz, slices) = optimal_par2_slice_size(&[1], 750_000, 5);
    assert_eq!(slices, 1);
    assert_eq!(sz, 750_000);
}

#[test]
fn optimal_slice_sizes_are_exact() {
    // 80 000 articles: 2000 slices of 40 articles.
    assert_eq!(optimal_par2_slice_size(&[80_000], 100, 10), (4_000, 2_000));
    // Many files of two articles each: grouping by two is the least that fits.
    let per_file = vec![2usize; 20_000];
    assert_eq!(optimal_par2_slice_size(&per_file, 10, 10), (400, 20_000));
    assert_eq!(recovery_count(1000, 10), 100);
    assert_eq!(recovery_count(9, 10), 0);
}

#[test]
fn passes_cover_all_recovery_blocks() {
    assert_eq!(plan_passes(0, 100, 10), [(0, 0)]);
    assert_eq!(plan_passes(25, 100, 10), [(0, 10), (10, 10), (20, 5)]);
    // At least one block per pass, however little memory there is.
    assert_eq!(plan_passes(3, 1, 10), [(0, 1), (1, 1), (2, 1)]);
    assert_eq!(queue_limit(0), 256 << 20);
    assert_eq!(queue_limit(4 << 30), 1 << 30);
    assert_eq!(queue_limit(u64::MAX), 2 << 30);
}

#[test]
fn resolve_date_none_omits_header() {
    assert_eq!(resolve_date(None), None);
}

#[test]
fn resolve_date_now_returns_rfc2822() {
    let d = resolve_date(Some("now")).unwrap();
    // Should look like "Mon, 01 Jan 2024 00:00:00 +0000".
    assert!(d.ends_with("+0000"));
    assert!(d.contains(':'));
}

#[test]
fn resolve_date_random_returns_rfc2822() {
    let d = resolve_date(Some("random")).unwrap();
    assert!(d.ends_with("+0000"));
}

#[test]
fn resolve_date_fixed_is_returned_verbatim() {
    let fixed = "Tue, 14 Jan 2025 10:00:00 +0000";
    assert_eq!(resolve_date(Some(fixed)).as_deref(), Some(fixed));
}

#[test]
fn dates_follow_from_time_and_chance() {
    assert_eq!(
        resolve_date_at(Some("now"), 1_704_067_200, 5).unwrap(),
        "Mon, 01 Jan 2024 00:00:00 +0000"
    );
    assert_eq!(
        resolve_date_at(Some("random"), 1_704_067_200, 2_592_000 + 86_400).unwrap(),
        "Sun, 31 Dec 2023 00:00:00 +0000"
    );
    assert_eq!(
        resolve_date_at(Some("random"), 10, 11).unwrap(),
        "Thu, 01 Jan 1970 00:00:00 +0000"
    );
}

fn meta_with_name(path: &str, name: &str) -> FileMeta {
    FileMeta {
        path: path.into(),
        real_name: name.into(),
        subject_name: name.into(),
        yenc_name: name.into(),
        size: 0,
    }
}

#[test]
fn par2_output_dir_loose_file_is_parent_dir() {
    // A single-component name like "movie.mkv" lives directly next to the file.
    let meta = meta_with_name("/data/movie.mkv", "movie.mkv");
    assert_eq!(par2_output_dir(&meta), "/data");
}

#[test]
fn par2_output_dir_nested_file_strips_depth() {
    // "Season01/ep01.mkv" has depth 2, so par2 dir is 2 levels up.
    let meta = meta_with_name("/data/Season01/ep01.mkv", "Season01/ep01.mkv");
    assert_eq!(par2_output_dir(&meta), "/data");
}

#[test]
fn par2_output_dir_three_levels_deep() {
    let meta = meta_with_name("/srv/a/b/c.bin", "a/b/c.bin");
    assert_eq!(par2_output_dir(&meta), "/srv");
}

#[test]
fn output_dirs_agree_with_the_system() {
    for (path, name) in [
        ("movie.mkv", "movie.mkv"),
        ("/movie.mkv", "movie.mkv"),
        ("./a/b", "a/b"),
        ("x//y/./z/", "z"),
        ("a", "a/b/c"),
        ("../a/b", "b"),
        ("", "b"),
    ] {
        let depth = name.split('/').count();
        let expected = std::path::Path::new(path)
            .ancestors()
            .nth(depth)
            .filter(|p| !p.as_os_str().is_empty())
            .unwrap_or(std::path::Path::new("."));
        let dir = par2_output_dir(&meta_with_name(path, name));
        assert_eq!(std::path::Path::new(&dir), expected, "{path}");
    }
}

#[test]
fn physical_core_count_is_at_least_one() {
    let logical = 1;
    assert!(physical_core_count(None, logical) >= 1);
    assert!(physical_core_count(Some(""), logical) >= 1);
}

#[test]
fn cores_are_counted_once() {
    let cpu = |phys: u32, core: u32| {
        format!("processor\t: 0\nphysical id\t: {phys}\ncore id\t\t: {core}\n\n")
    };
    let info = [cpu(0, 0), cpu(0, 1), cpu(0, 0), cpu(1, 0)].concat();
    assert_eq!(count_cores(&info), 3);
    assert_eq!(physical_core_count(Some(&info), 8), 3);
    // A description without both ids counts for nothing.
    assert_eq!(count_cores("core id : 1\n\nphysical id : 0\n\n"), 0);
    // Neither does one that is not closed by a blank line.
    assert_eq!(count_cores("physical id : 0\ncore id : 0\n"), 0);
}

#[test]
fn fast_cores_of_hybrid_processors_are_counted() {
    let cpu = |cpu: usize, siblings: &str| CpuTopology {
        cpu,
        siblings: siblings.into(),
    };
    let hybrid = [cpu(0, "0-1\n"), cpu(1, "0-1\n"), cpu(2, "2,3"), cpu(3, "2,3"), cpu(4, "4\n")];
    assert_eq!(performance_core_count(&hybrid, 9), 2);
    assert_eq!(performance_core_count(&hybrid[..4], 9), 9);
    assert_eq!(performance_core_count(&[cpu(4, "4")], 9), 9);
    assert_eq!(performance_core_count(&[], 9), 9);
}

#[test]
fn the_widest_instructions_are_named() {
    let mut cpu = CpuFeatures {
        avx512f: true,
        avx512bw: true,
        gfni: true,
        avx2: true,
        ssse3: true,
        neon: false,
    };
    assert_eq!(detect_par2_simd(cpu), "AVX-512/GFNI");
    cpu.gfni = false;
    assert_eq!(detect_par2_simd(cpu), "AVX2");
    cpu.avx2 = false;
    assert_eq!(detect_par2_simd(cpu), "SSSE3");
    cpu.ssse3 = false;
    assert_eq!(detect_par2_simd(cpu), "scalar");
    cpu.neon = true;
    assert_eq!(detect_par2_simd(cpu), "NEON");
}

#[test]
fn buffer_pool_reuses_released_buffer() {
    let mut pool = BufferPool::new(0, 1024);
    let buf = pool.acquire_buffer(1024);
    let cap = buf.capacity();
    pool.release_buffer(buf);
    let buf2 = pool.acquire_buffer(1024);
    // Reused buffer has at least the same capacity as the released one.
    assert!(buf2.capacity() >= cap);
    assert_eq!(buf2.len(), 1024);
}

#[test]
fn buffer_pool_drops_oversized_buffers() {
    // article_size = 100; a buffer with capacity > 200 must not be pooled.
    let mut pool = BufferPool::new(0, 100);
    let big = vec![0u8; 300]; // capacity >> article_size * 2
    pool.release_buffer(big);
    // Pool should be empty — allocates fresh on next acquire.
    assert!(pool.buffers.is_empty());
}

#[test]
fn buffer_pool_acquire_fresh_when_empty() {
    let mut pool = BufferPool::new(0, 512);
    let buf = pool.acquire_buffer(256);
    assert_eq!(buf.len(), 256);
}

#[test]
fn buffer_pool_starts_filled_and_keeps_what_fits() {
    let mut pool = BufferPool::new(3, 8);
    assert_eq!(pool.buffers.len(), 3);
    pool.release_buffer(Vec::new());
    assert_eq!(pool.buffers.len(), 3);
    pool.release_buffer(Vec::with_capacity(8));
    assert_eq!(pool.buffers.len(), 4);
    assert_eq!(pool.acquire_buffer(2), [0, 0]);
    assert_eq!(pool.buffers.len(), 3);
}

#[test]
fn buffer_pool_goes_by_capacity() {
    let mut pool = BufferPool::new(0, 8);
    pool.release_sized(vec![1; 8], 0);
    pool.release_sized(vec![2; 8], 17);
    assert!(pool.buffers.is_empty());
    pool.release_sized(vec![3; 8], 16);
    pool.release_sized(vec![4; 8], 1);
    assert_eq!(pool.buffers, [vec![3; 8], vec![4; 8]]);
}

#[test]
fn record_failure_appends_description() {
    let mut failures = Vec::new();
    let meta = meta_with_name("ep.mkv", "ep.mkv");
    record_failure(&mut failures, &meta, 2, 5, "timeout");
    assert_eq!(failures.len(), 1);
    assert!(failures[0].contains("ep.mkv"));
    assert!(failures[0].contains("2/5"));
    assert!(failures[0].contains("timeout"));
    assert_eq!(failures[0], "ep.mkv part 2/5: timeout");
}

fn dry_run_config() -> Config {
    let mut file = FileConfig::default();
    file.posting.groups = Some(vec!["alt.test".into()]);
    Config::resolve(
        file,
        Overrides {
            dry_run: Some(true),
            par2: Some(0),
            ..Default::default()
        },
    )
    .unwrap()
}

fn copy_meta(meta: &FileMeta) -> FileMeta {
    FileMeta {
        size: meta.size,
        ..meta_with_name(&meta.path, &meta.real_name)
    }
}

#[test]
fn a_run_is_planned() {
    let mut config = dry_run_config();
    config.article_size = 100;
    let metas = [
        FileMeta {
            size: 250,
            ..meta_with_name("/a", "a")
        },
        meta_with_name("/b", "b"),
    ];
    let plan = plan_run(&metas, &config, 16, true).unwrap();
    assert_eq!(plan.mode, RunMode::DryRun);
    assert_eq!(plan.target, None);
    assert_eq!(plan.segments, 4);
    assert_eq!(plan.workers, 4);
    assert_eq!(plan.buffers, 8);
    assert_eq!(plan.par2_bytes_hint, 0);
    config.resume = true;
    assert!(!plan_run(&metas, &config, 16, true).unwrap().resumes);
    config.resume = false;
    assert!(!plan.resumes);
    assert_eq!((plan.files[0].segments, plan.files[0].bytes), (3, 250));
    assert_eq!((plan.files[1].segments, plan.files[1].bytes), (1, 0));

    config.dry_run = false;
    config.resume = true;
    config.par2 = 10;
    config.host = "news".into();
    let plan = plan_run(&metas, &config, 2, true).unwrap();
    assert_eq!(plan.mode, RunMode::Post);
    assert_eq!(plan.target.as_deref(), Some("news:563"));
    assert_eq!(plan.workers, 2);
    assert_eq!(plan.par2_bytes_hint, 25 + 2048);
    assert!(plan.resumes);
    assert!(!plan_run(&metas, &config, 2, false).unwrap().resumes);

    config.par2_only = true;
    let plan = plan_run(&metas, &config, 2, true).unwrap();
    assert_eq!((plan.mode, plan.workers), (RunMode::Par2Only, 0));

    let huge = [FileMeta {
        size: u64::MAX,
        ..meta_with_name("/a", "a")
    }];
    config.article_size = usize::MAX;
    // Only the estimate of the recovery files can exceed its type here.
    assert_eq!(plan_run(&huge, &config, 1, true).unwrap().par2_bytes_hint, 0);
    config.par2_only = false;
    assert!(plan_run(&huge, &config, 1, true).is_none());
    config.dry_run = true;
    assert!(plan_run(&huge, &config, 1, true).is_some());
    config.dry_run = false;
    config.par2 = 1;
    let plan = plan_run(&huge, &config, usize::MAX, true).unwrap();
    assert_eq!((plan.workers, plan.par2_bytes_hint), (1, u64::MAX / 100 + 1024));
    config.par2 = 0;
    assert!(plan_run(&huge, &config, 1, true).is_some());
    let twice = [copy_meta(&huge[0]), copy_meta(&huge[0])];
    assert!(plan_run(&twice, &config, 1, true).is_none());
}

#[test]
fn workers_share_segments_and_rate() {
    assert_eq!(worker_count(false, 0, 0), 1);
    assert_eq!(worker_count(false, 8, 3), 3);
    assert_eq!(worker_count(true, 8, 3), 0);
    assert_eq!(worker_rate(0, 4), 0);
    assert_eq!(worker_rate(1000, 3), 333);
    assert_eq!(worker_rate(2, 3), 1);
    assert_eq!(worker_rate(5, 0), 5);
}

#[test]
fn names_are_obfuscated_as_asked() {
    let pair = |a: &str, b: &str| (a.to_string(), b.to_string());
    assert_eq!(names_with("r", ObfuscateMode::Off, "o"), pair("r", "r"));
    assert_eq!(names_with("r", ObfuscateMode::Subject, "o"), pair("o", "r"));
    assert_eq!(names_with("r", ObfuscateMode::Full, "o"), pair("o", "o"));
    let meta = file_meta("/d/secret.mkv", "secret.mkv", 7, ObfuscateMode::Subject);
    assert_eq!(meta.real_name, "secret.mkv");
    assert_eq!(meta.yenc_name, "secret.mkv");
    assert_eq!(meta.subject_name.len(), obfuscated_name().len());
    let meta = file_meta("/d/secret.mkv", "secret.mkv", 7, ObfuscateMode::Full);
    assert_eq!(meta.yenc_name, meta.subject_name);
    assert_ne!(meta.yenc_name, "secret.mkv");
    assert_eq!((meta.path.as_str(), meta.size), ("/d/secret.mkv", 7));
}

#[test]
fn articles_are_exact() {
    let mut config = dry_run_config();
    config.from = "f <f@f>".into();
    config.no_archive = true;
    let meta = FileMeta {
        size: 3,
        ..meta_with_name("/a.bin", "a.bin")
    };
    let part = PartSpec {
        number: 1,
        total: 1,
        offset: 0,
    };
    let article = build_article(&meta, part, &[0, 1, 2], &config, "<i@d>", Some("D"));
    let text = String::from_utf8(article).unwrap();
    assert!(text.starts_with(
        "From: f <f@f>\r\nNewsgroups: alt.test\r\nSubject: a.bin\r\nMessage-ID: <i@d>\r\n\
         Date: D\r\nX-No-Archive: yes\r\n\r\n=ybegin line=128 size=3 name=a.bin\r\n*+,\r\n=yend size=3"
    ));
    assert!(text.ends_with("\r\n"));
    assert!(post_payload(text.as_bytes()).ends_with(b"\r\n.\r\n"));
}

#[test]
fn deliveries_end_with_acceptance() {
    let mut d = Delivery::start(false, 3, false);
    assert_eq!(d.stage, Stage::Connect);
    let after = d.advance(Reply::Connected, "<i>");
    assert!(!after.pause && !after.retried && !after.invalidate);
    assert_eq!(d.stage, Stage::Post);
    d.advance(Reply::Accepted, "<i>");
    assert_eq!(d.stage, Stage::Posted);
}

#[test]
fn deliveries_are_verified_when_asked() {
    let mut d = Delivery::start(false, 2, true);
    d.advance(Reply::Connected, "<i>");
    d.advance(Reply::Accepted, "<i>");
    assert_eq!(d.stage, Stage::Stat);
    let after = d.advance(Reply::NotFound, "<i>");
    assert!(after.invalidate && after.pause && !after.retried);
    assert_eq!(d.last_err, "STAT: article <i> not found after posting");
    assert_eq!((d.stage, d.attempt), (Stage::Connect, 2));
    d.advance(Reply::Connected, "<i>");
    d.advance(Reply::Accepted, "<i>");
    d.advance(Reply::Found, "<i>");
    assert_eq!(d.stage, Stage::Posted);
}

#[test]
fn deliveries_fail_when_attempts_are_used_up() {
    let mut d = Delivery::start(false, 3, true);
    let after = d.advance(Reply::ConnectFailed { error: "refused".into() }, "<i>");
    assert!(after.retried && after.pause && !after.invalidate);
    d.advance(Reply::Connected, "<i>");
    let after = d.advance(Reply::PostFailed { error: "441".into() }, "<i>");
    assert!(after.retried && after.pause && after.invalidate);
    d.advance(Reply::Connected, "<i>");
    d.advance(Reply::Accepted, "<i>");
    let after = d.advance(Reply::StatFailed { error: "gone".into() }, "<i>");
    assert!(after.invalidate && !after.pause && !after.retried);
    assert_eq!(d.stage, Stage::Failed);
    assert_eq!(d.last_err, "STAT: gone");
}

#[test]
fn dry_runs_and_runs_without_attempts_take_no_step() {
    let d = Delivery::start(true, 3, true);
    assert_eq!(d.stage, Stage::Posted);
    let d = Delivery::start(false, 0, true);
    assert_eq!(d.stage, Stage::Failed);
    assert_eq!(d.last_err, "unknown error");
}

fn posted(name: &str, part: u32) -> PostedSegment {
    let meta = meta_with_name("/p", name);
    posted_segment(&meta, part, 9, &format!("<{name}{part}@x>"), 5)
}

#[test]
fn posted_segments_are_recorded() {
    let s = posted("a", 2);
    assert_eq!((s.file_name.as_str(), s.subject_name.as_str()), ("a", "a"));
    assert_eq!((s.part, s.total, s.bytes, s.file_size), (2, 9, 5, 0));
    assert_eq!(s.message_id, "<a2@x>");
}

#[test]
fn segments_are_sorted_by_name_and_part() {
    let mixed = vec![posted("b", 2), posted("a", 10), posted("a", 9), posted("b", 1), posted("aa", 1)];
    let outcome = PostOutcome {
        segments: sort_segments(mixed),
        failures: vec![],
        cancelled: false,
    };
    let order: Vec<(&str, u32)> = outcome
        .segments
        .iter()
        .map(|s| (s.file_name.as_str(), s.part))
        .collect();
    assert_eq!(order, [("a", 9), ("a", 10), ("aa", 1), ("b", 1), ("b", 2)]);
    assert!(outcome.failures.is_empty() && !outcome.cancelled);
}

#[test]
fn sorting_is_stable_and_agrees_with_std() {
    let names: Vec<String> = (0..500).map(|i| format!("{}é{}", i * 7919 % 61, i % 3)).collect();
    let keys: Vec<SortKey> = names
        .iter()
        .map(|n| SortKey {
            bytes: n.clone().into_bytes(),
            number: 0,
        })
        .collect();
    let mut expected: Vec<usize> = (0..names.len()).collect();
    expected.sort_by(|&a, &b| names[a].cmp(&names[b]));
    let order = sort_order(&keys);
    assert_eq!(order, expected);
    let sorted = arrange(names.clone(), &order);
    assert!(sorted.windows(2).all(|w| w[0] <= w[1]));
}

#[test]
fn missing_articles_are_found_out() {
    let segs = [posted("a", 1), posted("b", 1), posted("c", 1)];
    let mut check = ArticleCheck::start(&segs, 2);
    assert_eq!(check.next_id().as_deref(), Some("a1@x"));
    let step = check.advance(CheckReply::Found);
    assert_eq!((step.settled, step.wait_secs, step.invalidate), (Some(true), 0, false));
    let step = check.advance(CheckReply::NotFound);
    assert_eq!((step.settled, step.wait_secs, step.invalidate), (None, 5, false));
    let step = check.advance(CheckReply::StatFailed);
    assert_eq!((step.settled, step.wait_secs, step.invalidate), (Some(false), 0, true));
    let step = check.advance(CheckReply::ConnectFailed);
    assert_eq!((step.settled, step.wait_secs, step.invalidate), (None, 2, false));
    assert_eq!(check.next_id().as_deref(), Some("c1@x"));
    check.advance(CheckReply::Found);
    assert_eq!(check.next_id(), None);
    assert_eq!(check.into_missing(), ["<b1@x>"]);
    assert_eq!(strip_brackets("<<a>b>>"), "a>b");
}

#[test]
fn every_article_is_asked_for_once_at_least() {
    let segs = [posted("a", 1)];
    let mut check = ArticleCheck::start(&segs, 0);
    let step = check.advance(CheckReply::NotFound);
    assert_eq!(step.settled, Some(false));
    assert_eq!(check.into_missing(), ["<a1@x>"]);
}

#[test]
fn files_are_cut_into_padded_slices() {
    let article_size = 8;
    let slice_size = 16;
    let files: Vec<Vec<u8>> = vec![
        (0..40).collect(),
        (100..116).collect(),
        (200..205).collect(),
    ];
    let counts: Vec<usize> = files
        .iter()
        .map(|f| segments(f.len() as u64, article_size).len())
        .collect();
    let total: usize = counts.iter().map(|n| n.div_ceil(2)).sum();
    assert_eq!(total, 5);

    let mut pass = Pass::new(slice_size, total, 0, 2, 64, true);
    let mut completed = 0;
    for f in &files {
        for (offset, len) in segments(f.len() as u64, article_size) {
            if pass.article(&f[offset as usize..offset as usize + len]) {
                completed += 1;
            }
        }
        pass.end_file();
    }
    assert_eq!(completed, 3);
    assert_eq!(pass.slices_fed(), total);
    let (blocks, checksums) = pass.finish();

    let slices: Vec<Vec<u8>> = files
        .iter()
        .flat_map(|f| f.chunks(slice_size))
        .map(|c| {
            let mut s = c.to_vec();
            s.resize(slice_size, 0);
            s
        })
        .collect();
    let mut enc = RecoveryEncoder::new(slice_size, total, 0, 2);
    for s in &slices {
        enc.add_slice(s.clone());
    }
    let (expected, _) = enc.finish();
    for (b, e) in blocks.iter().zip(&expected) {
        assert_eq!((b.exponent, &b.data), (e.exponent, &e.data));
    }
    assert_eq!(checksums.len(), total);
    for (c, s) in checksums.iter().zip(&slices) {
        assert_eq!(c.md5, md5(s));
    }

    let per_file = distribute_checksums(&checksums, &counts, 2);
    let sizes: Vec<usize> = per_file.iter().map(|c| c.len()).collect();
    assert_eq!(sizes, [3, 1, 1]);
    assert_eq!(per_file[2][0], checksums[4]);
    // Where there are fewer checksums than slices, the last files go short.
    let short = distribute_checksums(&checksums[..3], &counts, 2);
    let sizes: Vec<usize> = short.iter().map(|c| c.len()).collect();
    assert_eq!(sizes, [3, 0, 0]);
}

#[test]
fn a_fed_slice_leaves_an_empty_buffer() {
    let mut enc = RecoveryEncoder::new(4, 1, 0, 1);
    let mut accum = vec![1, 2];
    feed_par2_slice(&mut accum, 4, &mut enc);
    assert!(accum.is_empty());
    let (blocks, _) = enc.finish();
    assert_eq!(blocks[0].data, [1, 2, 0, 0]);
}

#[test]
fn later_passes_compute_the_later_blocks() {
    let run = |start: u32, count: usize| {
        let mut pass = Pass::new(4, 1, start, count, 1 << 20, false);
        pass.article(&[5, 6, 7, 8]);
        pass.end_file();
        pass.finish()
    };
    let (whole, _) = run(0, 3);
    let (second, checksums) = run(2, 1);
    assert!(checksums.is_empty());
    assert_eq!(second[0].exponent, 2);
    assert_eq!(second[0].data, whole[2].data);
}

#[test]
fn slices_go_to_their_volumes() {
    let volumes = [Volume { first: 0, count: 1 }, Volume { first: 1, count: 2 }];
    let place = |volume, opens, closes| {
        Some(Placement {
            volume,
            opens,
            closes,
        })
    };
    assert_eq!(place_slice(&volumes, 0), place(0, true, true));
    assert_eq!(place_slice(&volumes, 1), place(1, true, false));
    assert_eq!(place_slice(&volumes, 2), place(1, false, true));
    assert_eq!(place_slice(&volumes, 3), None);
}

#[test]
fn volumes_double() {
    let plan: Vec<(u32, u32)> = plan_volumes(10).iter().map(|v| (v.first, v.count)).collect();
    assert_eq!(plan, [(0, 1), (1, 2), (3, 4), (7, 3)]);
    assert!(plan_volumes(0).is_empty());
    assert_eq!(index_name("movie"), "movie.par2");
    assert_eq!(volume_name("movie", Volume { first: 0, count: 1 }), "movie.vol00+01.par2");
    assert_eq!(volume_name("m", Volume { first: 127, count: 64 }), "m.vol127+64.par2");
}

#[test]
fn the_recovery_thread_returns_buffers() {
    let mut enc = RecoveryEncoder::new(4, 2, 0, 1).with_flush_limit(8);
    assert!(perform(&mut enc, Par2Work::Slice(vec![1, 2, 3, 4])).is_empty());
    let free = perform(&mut enc, Par2Work::Slice(vec![4, 3, 2, 1]));
    assert_eq!(free.len(), 2);
    assert!(free.iter().all(|b| b.is_empty()));
    assert_eq!(enc.finish().0[0].data, [5, 1, 1, 5]);
}

/// The slices of a run over files: how many the geometry counts on, and the
/// checksums of those that are fed.
fn checksums_of_run(files: &[Vec<u8>]) -> (usize, Vec<SliceChecksum>, Vec<Vec<SliceChecksum>>) {
    let counts: Vec<usize> = files.iter().map(|f| segments(f.len() as u64, 8).len()).collect();
    let total: usize = counts.iter().map(|n| n.div_ceil(2)).sum();
    let mut pass = Pass::new(16, total, 0, 1, 1 << 20, true);
    for f in files {
        for (offset, len) in segments(f.len() as u64, 8) {
            pass.article(&f[offset as usize..offset as usize + len]);
        }
        pass.end_file();
    }
    let (_, checksums) = pass.finish();
    let per_file = distribute_checksums(&checksums, &counts, 2);
    (total, checksums, per_file)
}

#[test]
fn files_get_the_checksums_of_their_slices() {
    let files: Vec<Vec<u8>> = vec![(0..20).collect(), (50..60).collect(), Vec::new()];
    let (total, checksums, per_file) = checksums_of_run(&files);
    // The geometry counts a slice for the empty file, but none is fed.
    assert_eq!((total, checksums.len()), (4, 3));
    assert_eq!(per_file[0], checksums[..2]);
    assert_eq!(per_file[1], checksums[2..]);
    assert!(per_file[2].is_empty());
    let mut last = files[1].clone();
    last.resize(16, 0);
    assert_eq!(per_file[1][0].md5, md5(&last));
}

#[test]
fn an_empty_file_counts_as_one_slice() {
    let files: Vec<Vec<u8>> = vec![(0..20).collect(), Vec::new(), (50..60).collect()];
    let (total, checksums, per_file) = checksums_of_run(&files);
    assert_eq!((total, checksums.len()), (4, 3));
    let sizes: Vec<usize> = per_file.iter().map(|c| c.len()).collect();
    assert_eq!(sizes, [2, 1, 0]);
    // One article of its own, and so one slice and its share of recovery blocks.
    assert_eq!(optimal_par2_slice_size(&[1, 1], 8, 100), (8, 2));
}

#[test]
fn segments_posted_earlier_are_kept() {
    let meta = FileMeta {
        size: 250,
        ..meta_with_name("/a", "a")
    };
    assert!(resumed_segment(&meta, 2, 3, None).is_none());
    let segment = resumed_segment(&meta, 2, 3, Some("<stored@pesto>")).unwrap();
    assert_eq!(segment.message_id, "<stored@pesto>");
    assert_eq!(segment.bytes, 0);
    assert_eq!((segment.file_size, segment.part, segment.total), (250, 2, 3));
    assert_eq!(segment.file_name, meta.real_name);
    assert_eq!(segment.subject_name, meta.subject_name);
}

#[test]
fn only_the_chosen_slice_has_to_fit() {
    // The articles of all files together are larger than any slice can be.
    let counts = [2000usize, 2000];
    let size = usize::MAX / 100;
    let (articles, slices) = par2_grouping(&counts, 10);
    assert_eq!((articles, slices), (4, 1000));
    assert_eq!(optimal_par2_slice_size(&counts, size, 10), (4 * size, 1000));
    assert_eq!(par2_grouping(&[], 10), (1, 0));
}
