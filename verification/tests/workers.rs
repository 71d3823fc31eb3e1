use avxs::ffms2::{PixelFormat, PixelSubsampling};
use avxs::workers::{
    available_bytes, calculate, cgroup_dirs, headroom, own_cgroup_paths, parse_meminfo,
    reclaimable_bytes, GIB,
};
use avxs::y4m::VideoInfo;

fn info(w: u32, h: u32, sub: PixelSubsampling) -> VideoInfo {
    VideoInfo {
        width: w,
        height: h,
        fps_num: 24,
        fps_den: 1,
        sar_num: 1,
        sar_den: 1,
        num_frames: 100,
        pixel_format: PixelFormat {
            pix_fmt: 0,
            bit_depth: 10,
            subsampling: sub,
        },
    }
}

#[test]
fn workers_at_least_one() {
    let i = info(1920, 1080, PixelSubsampling::Yuv420);
    for (cores, ram) in [(1, 0), (4, GIB), (24, 64 * GIB)] {
        assert!(calculate(&i, cores, ram, 6) >= 1);
    }
}

#[test]
fn cgroup_lookup_walks_from_the_root_down_to_the_process_own_group() {
    // Docker's default namespace maps the process to "/".
    let dirs = cgroup_dirs("/sys/fs/cgroup", Some("/"));
    assert_eq!(dirs, vec!["/sys/fs/cgroup"]);

    // A systemd unit or a k8s pod carries the limit on an ancestor.
    let dirs = cgroup_dirs("/sys/fs/cgroup", Some("/system.slice/avxs.service"));
    assert_eq!(
        dirs,
        vec![
            "/sys/fs/cgroup",
            "/sys/fs/cgroup/system.slice",
            "/sys/fs/cgroup/system.slice/avxs.service",
        ]
    );

    let dirs = cgroup_dirs("/sys/fs/cgroup", None);
    assert_eq!(dirs, vec!["/sys/fs/cgroup"]);
}

#[test]
fn own_cgroup_paths_reads_both_hierarchies() {
    let sample = "0::/system.slice/avxs.service\n\
                  4:memory:/docker/abc123\n";
    let map = own_cgroup_paths(sample);
    assert_eq!(map.get("").map(String::as_str), Some("/system.slice/avxs.service"));
    assert_eq!(map.get("memory").map(String::as_str), Some("/docker/abc123"));
}

#[test]
fn own_cgroup_paths_skips_short_lines() {
    let map = own_cgroup_paths("4:memory\n5:cpu:/a:b\n");
    assert_eq!(map.len(), 1);
    assert_eq!(map.get("cpu").map(String::as_str), Some("/a:b"));
}

#[test]
fn workers_4k_hdr_fewer_than_1080p() {
    let hd = info(1920, 1080, PixelSubsampling::Yuv420);
    let uhd = info(3840, 2160, PixelSubsampling::Yuv444);
    for (cores, ram) in [(4, GIB), (24, 16 * GIB), (64, 256 * GIB)] {
        let w_hd = calculate(&hd, cores, ram, 6);
        let w_uhd = calculate(&uhd, cores, ram, 6);
        assert!(w_hd >= w_uhd, "4K/444 should use <= workers than 1080p/420");
    }
}

#[test]
fn memory_and_cores_bound_the_workers() {
    let hd = info(1920, 1080, PixelSubsampling::Yuv420);
    assert_eq!(calculate(&hd, 24, 256 * GIB, 6), 4);
    assert_eq!(calculate(&hd, 64, 16 * GIB, 6), 5);
    assert_eq!(calculate(&hd, 2, 16 * GIB, 6), 1);
}

#[test]
fn available_memory() {
    let report = "MemTotal: 32 kB\nMemFree: 2 kB\nMemAvailable:   16384 kB\n";
    assert_eq!(parse_meminfo(report), Some(16384));
    assert_eq!(parse_meminfo("MemAvailable:\n"), None);
    assert_eq!(parse_meminfo(""), None);
    assert_eq!(available_bytes(Some(1024), &[]), 1024 * 1024);
    assert_eq!(available_bytes(Some(1024), &[5000, 1000, 9999999]), 1000);
    assert_eq!(available_bytes(None, &[]), GIB);
    assert_eq!(available_bytes(Some(u64::MAX), &[]), u64::MAX);
}

#[test]
fn limits_of_a_group() {
    assert_eq!(headroom(Some("max\n"), Some("5\n"), None), None);
    assert_eq!(headroom(Some("18446744073709551615\n"), None, None), None);
    assert_eq!(headroom(Some("1000\n"), Some("400\n"), None), Some(600));
    let stat = "anon 5\ninactive_file 100\nother 9\n";
    assert_eq!(reclaimable_bytes(stat), 100);
    assert_eq!(headroom(Some("1000\n"), Some("400\n"), Some(stat)), Some(700));
    assert_eq!(headroom(Some("1000\n"), Some("4000\n"), Some(stat)), Some(0));
    assert_eq!(headroom(Some("1000\n"), None, Some(stat)), Some(1000));
    assert_eq!(headroom(None, Some("400\n"), None), None);
    assert_eq!(reclaimable_bytes("total_inactive_file 7\n"), 7);
}
