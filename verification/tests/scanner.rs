use avxs::paths::{file_name, join_path, name_extension, name_stem};
use avxs::resume::TempDir;
use avxs::scanner::{
    breaks_line, drop_stem_collisions, failed_marker, find_video_files, is_video, output_exists,
    output_path, profile_dirs, scan, shares_stem, Candidate, Job,
};

fn names(list: &[&str]) -> Vec<String> {
    list.iter().map(|s| s.to_string()).collect()
}

/// A profile directory with the names of its files.
fn found(profiles: &[(&str, &[&str])]) -> Vec<Candidate> {
    let dirs = names(&profiles.iter().map(|p| p.0).collect::<Vec<_>>());
    let mut candidates = Vec::new();
    for dir in profile_dirs(&dirs) {
        let files = profiles.iter().find(|p| p.0 == dir).unwrap().1;
        if !files.contains(&"encode.toml") {
            continue;
        }
        let base = join_path("/input", &dir);
        for file in find_video_files(&names(files)) {
            candidates.push(Candidate {
                encode_toml: join_path(&base, "encode.toml"),
                source_file: join_path(&base, &file),
                output_size: None,
                marker_exists: false,
                recorded_source: None,
            });
        }
    }
    candidates
}

#[test]
fn scan_finds_profile_with_video() {
    let jobs = scan("/output", &found(&[("test-profile", &["encode.toml", "film.mkv"])]));
    assert_eq!(jobs.len(), 1);
    assert_eq!(file_name(&jobs[0].source_file).unwrap(), "film.mkv");
    assert_eq!(jobs[0].encode_toml, "/input/test-profile/encode.toml");
}

#[test]
fn scan_skips_processed_dir() {
    let jobs = scan("/output", &found(&[("processed", &["encode.toml", "film.mkv"])]));
    assert_eq!(jobs.len(), 0);
}

#[test]
fn scan_skips_existing_output() {
    let mut c = found(&[("p", &["encode.toml", "film.mkv"])]);
    c[0].output_size = Some(4);
    assert_eq!(scan("/output", &c).len(), 0);
    c[0].output_size = Some(0);
    assert_eq!(scan("/output", &c).len(), 1);
}

#[test]
fn scan_skips_dir_without_toml() {
    let jobs = scan("/output", &found(&[("no-toml", &["film.mkv"])]));
    assert_eq!(jobs.len(), 0);
}

#[test]
fn scan_drops_files_that_share_a_stem() {
    let c = found(&[("a", &["encode.toml", "film.mkv"]), ("b", &["encode.toml", "film.mkv"])]);
    assert_eq!(scan("/output", &c).len(), 0);
}

#[test]
fn scan_drops_same_stem_with_different_extensions() {
    let c = found(&[("p", &["encode.toml", "film.mkv", "film.mp4"])]);
    assert_eq!(c.len(), 2);
    assert_eq!(scan("/output", &c).len(), 0);
}

#[test]
fn scan_keeps_distinct_stems_next_to_a_collision() {
    let c = found(&[
        ("a", &["encode.toml", "film.mkv", "other.mkv"]),
        ("b", &["encode.toml", "film.mkv"]),
    ]);
    let jobs = scan("/output", &c);
    assert_eq!(jobs.len(), 1);
    assert_eq!(jobs[0].stem(), "other");
}

#[test]
fn failed_marker_only_blocks_the_file_it_was_written_for() {
    let mut c = found(&[("p", &["encode.toml", "film.mkv"])]);
    c[0].marker_exists = true;

    // Marker written for this exact file: blocked.
    c[0].recorded_source = Some("/input/p/film.mkv".to_string());
    assert_eq!(scan("/output", &c).len(), 0);

    // Marker left over from a different file that had the same name: not blocked.
    c[0].recorded_source = Some("/somewhere/else/film.mkv".to_string());
    assert_eq!(scan("/output", &c).len(), 1);

    // Marker without a record of its file: blocked.
    c[0].recorded_source = None;
    assert_eq!(scan("/output", &c).len(), 0);
    assert_eq!(
        failed_marker("/output", "/input/p/film.mkv", true, None),
        Some("/output/.avxs_film/.failed".to_string())
    );
    assert_eq!(failed_marker("/output", "/input/p/film.mkv", false, None), None);
    for unnamed in ["/", "", "/input/.."] {
        assert_eq!(failed_marker("/output", unnamed, true, None), None);
    }
}

#[test]
fn videos_are_told_by_their_extension() {
    for name in ["a.mkv", "a.MKV", "a.Mp4", "a.b.m2ts", "a.mov", "a.ts"] {
        assert!(is_video(name), "{name}");
    }
    for name in ["mkv", "a.txt", "a.mkv.part", ".mkv", "a."] {
        assert!(!is_video(name), "{name}");
    }
}

#[test]
fn names_that_break_a_line_are_passed_over() {
    assert!(breaks_line("a\nb.mkv"));
    assert!(breaks_line("a\rb.mkv"));
    assert!(!breaks_line("a b.mkv"));
    let files = names(&["b.mkv", "a\n.mkv", "A.mkv", "notes.txt"]);
    assert_eq!(find_video_files(&files), vec!["A.mkv", "b.mkv"]);
}

#[test]
fn profiles_are_sorted_and_leave_out_the_archive() {
    let dirs = names(&["b", "processed", "a"]);
    assert_eq!(profile_dirs(&dirs), vec!["a", "b"]);
}

#[test]
fn outputs_are_named_by_the_stem() {
    assert_eq!(output_path("/output", "film.part1"), "/output/film.part1.mkv");
    assert!(!output_exists(None));
    assert!(!output_exists(Some(0)));
    assert!(output_exists(Some(1)));
}

fn job(source: &str) -> Job {
    Job { encode_toml: String::new(), source_file: source.to_string() }
}

#[test]
fn collisions_are_told_by_the_stem() {
    let jobs = vec![job("/i/a/film.mkv"), job("/i/b/film.mp4"), job("/i/b/c.mkv")];
    assert!(shares_stem(&jobs, 0));
    assert!(!shares_stem(&jobs, 2));
    let kept = drop_stem_collisions(jobs);
    assert_eq!(kept.len(), 1);
    assert_eq!(kept[0].stem(), "c");
}

#[test]
fn parts_of_paths() {
    assert_eq!(join_path("/a", "b"), "/a/b");
    assert_eq!(join_path("/a/", "b"), "/a/b");
    assert_eq!(join_path("", "b"), "b");
    assert_eq!(join_path("/a", "/b"), "/b");
    assert_eq!(file_name("/a/b.mkv"), Some("b.mkv".to_string()));
    assert_eq!(file_name("/"), None);
    assert_eq!(file_name("/a/.."), None);
    assert_eq!(name_stem("a.b.mkv"), "a.b");
    assert_eq!(name_stem(".hidden"), ".hidden");
    assert_eq!(name_extension("a.b.mkv"), Some("mkv".to_string()));
    assert_eq!(name_extension(".hidden"), None);
}

#[test]
fn files_of_a_job() {
    let t = TempDir::for_video("/output", "film");
    assert_eq!(t.path, "/output/.avxs_film");
    assert_eq!(t.index_path, "/output/.avxs_film/frame-index.ffindex");
    assert_eq!(t.scenes_path, "/output/.avxs_film/scenes.json");
    assert_eq!(t.done_path, "/output/.avxs_film/done.json");
    assert_eq!(t.tq_path, "/output/.avxs_film/tq.json");
    assert_eq!(t.failed_path, "/output/.avxs_film/.failed");
    assert_eq!(t.crop_cache, "/output/.avxs_film/crop.cache");
    assert_eq!(t.chunk_path("00001"), "/output/.avxs_film/chunks/00001.ivf");
    assert_ne!(t.chunk_path("00001"), t.chunk_path("00011"));
    assert_ne!(t.path, TempDir::for_video("/output", "film2").path);
}
