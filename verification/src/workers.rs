//! How many chunks are encoded at once: what the processor and the memory
//! allow.
use vstd::prelude::*;

use crate::ffms2::PixelSubsampling;
use crate::number::{parse_nat, parse_u64};
use crate::paths::{join_path, joined_path};
use crate::strmap::StrMap;
use crate::text::{
    has_prefix, lines, lines_of, opt_str, push_string, split, split_first, split_on,
    split_once, starts_with, str_eq, texts_split_at_the_first_separator, to_chars, trim, trimmed,
    views, words, words_of,
};
use crate::y4m::VideoInfo;

verus! {

/// The bytes of a gibibyte.
pub const GIB: u64 = 1_073_741_824;

/// How much of the memory of a worker goes to each pixel, in quarters.
pub open spec fn pixel_weight(sub: PixelSubsampling) -> nat {
    match sub {
        PixelSubsampling::Yuv420 => 4,
        PixelSubsampling::Yuv422 => 5,
        PixelSubsampling::Yuv444 => 6,
    }
}

/// The memory of a worker: a gibibyte and a half for each million pixels,
/// weighted by their format. One unit of it is the eight-millionth part of a
/// byte.
pub open spec fn worker_memory(info: VideoInfo) -> nat {
    GIB as nat * (info.width as nat * info.height as nat) * 3 * pixel_weight(
        info.pixel_format.subsampling,
    )
}

/// The memory that there is, in the units of [`worker_memory`].
pub open spec fn memory_units(ram_bytes: nat) -> nat {
    ram_bytes * 8_000_000
}

/// The number of workers: as many as the processor and the memory allow, and at
/// least one. The memory is rounded down, since one worker too many would be
/// killed in the middle of a chunk.
pub open spec fn worker_count(
    info: VideoInfo,
    cpu_cores: nat,
    ram_bytes: nat,
    threads_per_worker: nat,
) -> nat {
    let by_cpu = cpu_cores / threads_per_worker;
    let n = if worker_memory(info) == 0 || by_cpu <= memory_units(ram_bytes) / worker_memory(
        info,
    ) {
        by_cpu
    } else {
        memory_units(ram_bytes) / worker_memory(info)
    };
    if n < 1 {
        1
    } else {
        n
    }
}

pub fn calculate(
    info: &VideoInfo,
    cpu_cores: usize,
    ram_bytes: u64,
    threads_per_worker: usize,
) -> (r: usize)
    requires
        threads_per_worker > 0,
    ensures
        r == worker_count(
            *info,
            cpu_cores as nat,
            ram_bytes as nat,
            threads_per_worker as nat,
        ),
{
    let weight: u128 = match info.pixel_format.subsampling {
        PixelSubsampling::Yuv420 => 4,
        PixelSubsampling::Yuv422 => 5,
        PixelSubsampling::Yuv444 => 6,
    };
    assert(info.width as nat * info.height as nat <= 0xffff_ffff * 0xffff_ffff)
        by (nonlinear_arith)
        requires
            info.width <= 0xffff_ffff,
            info.height <= 0xffff_ffff,
    ;
    let pixels: u128 = info.width as u128 * info.height as u128;
    assert(GIB as nat * pixels * 3 * weight <= 0x4000_0000 * (0xffff_ffff * 0xffff_ffff) * 18 && 0
        <= GIB as nat * pixels * 3) by (nonlinear_arith)
        requires
            GIB == 0x4000_0000,
            pixels <= 0xffff_ffff * 0xffff_ffff,
            4 <= weight <= 6,
    ;
    let per_worker: u128 = GIB as u128 * pixels * 3 * weight;
    let by_cpu: usize = cpu_cores / threads_per_worker;
    let mut n: u128 = by_cpu as u128;
    if per_worker > 0 {
        let by_ram: u128 = (ram_bytes as u128 * 8_000_000) / per_worker;
        if by_ram < n {
            n = by_ram;
        }
    }
    if n < 1 {
        1
    } else {
        n as usize
    }
}

/// There is always at least one worker, never more than the processor allows
/// beyond that, and the memory of all of them together is there unless it is
/// only one.
pub proof fn workers_fit_the_machine(
    info: VideoInfo,
    cpu_cores: nat,
    ram_bytes: nat,
    threads_per_worker: nat,
)
    requires
        threads_per_worker > 0,
    ensures
        ({
            let n = worker_count(info, cpu_cores, ram_bytes, threads_per_worker);
            &&& n >= 1
            &&& n > 1 ==> n * threads_per_worker <= cpu_cores
            &&& n > 1 ==> n * worker_memory(info) <= memory_units(ram_bytes)
        }),
{
    let n = worker_count(info, cpu_cores, ram_bytes, threads_per_worker);
    let m = worker_memory(info);
    if n > 1 {
        assert(n * threads_per_worker <= cpu_cores) by (nonlinear_arith)
            requires
                n <= cpu_cores / threads_per_worker,
                threads_per_worker > 0,
        ;
        if m > 0 {
            let units = memory_units(ram_bytes);
            assert(n * m <= units) by (nonlinear_arith)
                requires
                    n <= units / m,
                    m > 0,
            ;
        } else {
            assert(n * m == 0) by (nonlinear_arith)
                requires
                    m == 0,
            ;
        }
    }
}

/// A video with more pixels, or with heavier ones, gets no more workers.
pub proof fn heavier_videos_get_no_more_workers(
    light: VideoInfo,
    heavy: VideoInfo,
    cpu_cores: nat,
    ram_bytes: nat,
    threads_per_worker: nat,
)
    requires
        threads_per_worker > 0,
        light.width as nat * light.height as nat <= heavy.width as nat * heavy.height as nat,
        pixel_weight(light.pixel_format.subsampling) <= pixel_weight(
            heavy.pixel_format.subsampling,
        ),
    ensures
        worker_count(heavy, cpu_cores, ram_bytes, threads_per_worker) <= worker_count(
            light,
            cpu_cores,
            ram_bytes,
            threads_per_worker,
        ),
{
    let lp = light.width as nat * light.height as nat;
    let hp = heavy.width as nat * heavy.height as nat;
    let lw = pixel_weight(light.pixel_format.subsampling);
    let hw = pixel_weight(heavy.pixel_format.subsampling);
    let l = worker_memory(light);
    let h = worker_memory(heavy);
    assert(l <= h) by (nonlinear_arith)
        requires
            l == GIB as nat * lp * 3 * lw,
            h == GIB as nat * hp * 3 * hw,
            lp <= hp,
            lw <= hw,
    ;
    let units = memory_units(ram_bytes);
    if l > 0 {
        assert(units / h <= units / l) by (nonlinear_arith)
            requires
                0 < l <= h,
        ;
    }
}

/// The available memory in kibibytes that a line of the kernel's report names.
pub open spec fn available_kib(lines: Seq<Seq<char>>) -> Option<nat>
    decreases lines.len(),
{
    if lines.len() == 0 {
        None
    } else if has_prefix(lines[0], "MemAvailable:"@) {
        if words_of(lines[0]).len() < 2 {
            None
        } else {
            parse_nat(words_of(lines[0])[1], u64::MAX as nat)
        }
    } else {
        available_kib(lines.skip(1))
    }
}

/// The available memory in kibibytes, from the kernel's report.
pub fn parse_meminfo(text: &str) -> (r: Option<u64>)
    ensures
        match available_kib(lines_of(text@)) {
            Some(n) => r == Some(n as u64) && n == r.unwrap(),
            None => r is None,
        },
{
    let all = lines(text);
    let ghost ls = lines_of(text@);
    let mut i: usize = 0;
    assert(ls.skip(0) =~= ls);
    while i < all.len()
        invariant
            i <= all@.len(),
            ls == views(all@),
            available_kib(lines_of(text@)) == available_kib(ls.skip(i as int)),
        decreases all@.len() - i,
    {
        assert(ls.skip(i as int)[0] == all@[i as int]@);
        assert(ls.skip(i as int).skip(1) =~= ls.skip(i + 1));
        if starts_with(all[i].as_str(), "MemAvailable:") {
            let fields = words(all[i].as_str());
            assert(words_of(all@[i as int]@).len() == fields@.len());
            if fields.len() < 2 {
                return None;
            }
            assert(words_of(all@[i as int]@)[1] == fields@[1]@);
            return parse_u64(fields[1].as_str());
        }
        i += 1;
    }
    None
}

/// The memory that the host has to give: what its report says, or a gibibyte.
pub open spec fn host_bytes(kib: Option<nat>) -> nat {
    match kib {
        Some(kib) => if kib * 1024 > u64::MAX {
            u64::MAX as nat
        } else {
            kib * 1024
        },
        None => GIB as nat,
    }
}

/// The least of a number and the limits.
pub open spec fn least(first: nat, limits: Seq<u64>) -> nat
    decreases limits.len(),
{
    if limits.len() == 0 {
        first
    } else {
        let rest = least(first, limits.drop_last());
        if limits.last() < rest {
            limits.last() as nat
        } else {
            rest
        }
    }
}

/// The memory to count on: what the host has, or the tightest of the limits that
/// the process is under.
pub fn available_bytes(meminfo_kib: Option<u64>, limits: &[u64]) -> (r: u64)
    ensures
        r == least(
            host_bytes(
                match meminfo_kib {
                    Some(kib) => Some(kib as nat),
                    None => None,
                },
            ),
            limits@,
        ),
{
    let mut best: u64 = match meminfo_kib {
        Some(kib) => if kib > 18_014_398_509_481_983 {
            u64::MAX
        } else {
            kib * 1024
        },
        None => GIB,
    };
    let ghost first = best as nat;
    let mut i: usize = 0;
    while i < limits.len()
        invariant
            i <= limits@.len(),
            best == least(first, limits@.take(i as int)),
        decreases limits@.len() - i,
    {
        assert(limits@.take(i + 1).drop_last() =~= limits@.take(i as int));
        if limits[i] < best {
            best = limits[i];
        }
        i += 1;
    }
    assert(limits@.take(i as int) =~= limits@);
    best
}

/// The memory that is counted on is no more than the host has, nor than any
/// limit leaves.
pub proof fn tightest_limit_counts(first: nat, limits: Seq<u64>, i: int)
    requires
        0 <= i < limits.len(),
    ensures
        least(first, limits) <= first,
        least(first, limits) <= limits[i],
    decreases limits.len(),
{
    reveal_with_fuel(least, 2);
    if limits.len() > 1 {
        if i < limits.len() - 1 {
            tightest_limit_counts(first, limits.drop_last(), i);
        } else {
            tightest_limit_counts(first, limits.drop_last(), 0);
        }
    }
}

/// The groups of the process by their controllers. In a line of the form
/// `id:controllers:path` the id has no meaning here.
pub open spec fn groups_of(lines: Seq<Seq<char>>) -> Map<Seq<char>, Seq<char>>
    decreases lines.len(),
{
    if lines.len() == 0 {
        Map::empty()
    } else {
        let before = groups_of(lines.drop_last());
        match split_first(lines.last(), ':') {
            Some((_, rest)) => match split_first(rest, ':') {
                Some((controllers, path)) => before.insert(controllers, path),
                None => before,
            },
            None => before,
        }
    }
}

/// The texts in a map of strings.
pub open spec fn texts(map: Map<Seq<char>, String>) -> Map<Seq<char>, Seq<char>> {
    map.map_values(|s: String| s@)
}

/// The groups of the process, from what the kernel says of it. The unified
/// hierarchy has no controllers, and so an empty key.
pub fn own_cgroup_paths(text: &str) -> (r: StrMap<String>)
    ensures
        texts(r@) == groups_of(lines_of(text@)),
{
    let all = lines(text);
    let ghost ls = lines_of(text@);
    let mut map: StrMap<String> = StrMap::new();
    let mut i: usize = 0;
    assert(texts(map@) =~= Map::<Seq<char>, Seq<char>>::empty());
    while i < all.len()
        invariant
            i <= all@.len(),
            ls == views(all@),
            texts(map@) == groups_of(ls.take(i as int)),
        decreases all@.len() - i,
    {
        assert(ls.take(i + 1).drop_last() =~= ls.take(i as int));
        assert(ls.take(i + 1).last() == all@[i as int]@);
        if let Some((_, rest)) = split_once(all[i].as_str(), ':') {
            if let Some((controllers, path)) = split_once(rest.as_str(), ':') {
                let ghost before = map@;
                let ghost c = controllers@;
                let ghost p = path;
                map.insert(controllers, path);
                assert(texts(before.insert(c, p)) =~= texts(before).insert(c, p@));
            }
        }
        i += 1;
    }
    assert(ls.take(i as int) =~= ls);
    map
}

/// The directories on the way from `root` down along the parts of a path, with
/// `root` itself first.
pub open spec fn dirs_along(root: Seq<char>, parts: Seq<Seq<char>>) -> Seq<Seq<char>>
    decreases parts.len(),
{
    if parts.len() == 0 {
        seq![root]
    } else {
        let before = dirs_along(root, parts.drop_last());
        if parts.last().len() == 0 {
            before
        } else {
            before.push(joined_path(before.last(), parts.last()))
        }
    }
}

/// The directory of a group and of every group around it, from `root` down. The
/// path of a group is absolute inside its hierarchy.
pub fn cgroup_dirs(root: &str, rel: Option<&str>) -> (r: Vec<String>)
    ensures
        views(r@) == dirs_along(
            root@,
            match rel {
                Some(rel) => split_on(rel@, '/'),
                None => seq![""@],
            },
        ),
{
    let mut dirs: Vec<String> = Vec::new();
    push_string(&mut dirs, root.to_owned());
    assert(views(dirs@) =~= seq![root@]);
    let mut current = root.to_owned();
    let rel = match rel {
        Some(rel) => rel,
        None => {
            proof {
                reveal_strlit("");
                let parts = seq![""@];
                assert(parts.drop_last() =~= Seq::<Seq<char>>::empty());
                reveal_with_fuel(dirs_along, 2);
            }
            return dirs;
        },
    };
    let parts = split(rel, '/');
    let ghost ps = split_on(rel@, '/');
    let mut i: usize = 0;
    assert(ps.take(0) =~= Seq::<Seq<char>>::empty());
    while i < parts.len()
        invariant
            i <= parts@.len(),
            ps == views(parts@),
            views(dirs@) == dirs_along(root@, ps.take(i as int)),
            views(dirs@).len() > 0,
            views(dirs@).last() == current@,
        decreases parts@.len() - i,
    {
        assert(ps.take(i + 1).drop_last() =~= ps.take(i as int));
        assert(ps.take(i + 1).last() == parts@[i as int]@);
        if to_chars(parts[i].as_str()).len() > 0 {
            current = join_path(current.as_str(), parts[i].as_str());
            push_string(&mut dirs, current.clone());
        }
        i += 1;
    }
    assert(ps.take(i as int) =~= ps);
    dirs
}

/// The reclaimable bytes that a line of the group's statistics names: pages of
/// files, which the kernel can drop. Each version of the interface has its own
/// name for them.
pub open spec fn reclaimable_in(line: Seq<char>) -> Option<nat> {
    match split_first(line, ' ') {
        Some((key, value)) => if key == "inactive_file"@ || key == "total_inactive_file"@ {
            parse_nat(trimmed(value), u64::MAX as nat)
        } else {
            None
        },
        None => None,
    }
}

/// The reclaimable bytes of a group: the first number of them in its statistics.
pub open spec fn reclaimable_of(lines: Seq<Seq<char>>) -> nat
    decreases lines.len(),
{
    if lines.len() == 0 {
        0
    } else {
        match reclaimable_in(lines[0]) {
            Some(n) => n,
            None => reclaimable_of(lines.skip(1)),
        }
    }
}

pub fn reclaimable_bytes(stat: &str) -> (r: u64)
    ensures
        r == reclaimable_of(lines_of(stat@)),
{
    let all = lines(stat);
    let ghost ls = lines_of(stat@);
    let mut i: usize = 0;
    assert(ls.skip(0) =~= ls);
    while i < all.len()
        invariant
            i <= all@.len(),
            ls == views(all@),
            reclaimable_of(lines_of(stat@)) == reclaimable_of(ls.skip(i as int)),
        decreases all@.len() - i,
    {
        assert(ls.skip(i as int)[0] == all@[i as int]@);
        assert(ls.skip(i as int).skip(1) =~= ls.skip(i + 1));
        if let Some((key, value)) = split_once(all[i].as_str(), ' ') {
            if str_eq(key.as_str(), "inactive_file") || str_eq(
                key.as_str(),
                "total_inactive_file",
            ) {
                if let Some(n) = parse_u64(trim(value.as_str()).as_str()) {
                    return n;
                }
            }
        }
        i += 1;
    }
    0
}

/// `a` less `b`, but not below zero.
pub open spec fn minus(a: nat, b: nat) -> nat {
    if a > b {
        (a - b) as nat
    } else {
        0
    }
}

/// The number that a file of the kernel holds.
pub open spec fn number_in(text: Option<Seq<char>>) -> Option<nat> {
    match text {
        Some(t) => parse_nat(trimmed(t), u64::MAX as nat),
        None => None,
    }
}

/// The memory that a group leaves: its limit less what it uses, where what can be
/// reclaimed counts as free. A group without a limit says so in words, or by a
/// number beyond any machine.
pub open spec fn headroom_of(
    limit: Option<Seq<char>>,
    usage: Option<Seq<char>>,
    reclaimable: nat,
) -> Option<nat> {
    match number_in(limit) {
        Some(limit) if limit < u64::MAX / 2 => {
            let used = match number_in(usage) {
                Some(n) => n,
                None => 0,
            };
            Some(minus(limit, minus(used, reclaimable)))
        },
        _ => None,
    }
}

fn read_number(text: Option<&str>) -> (r: Option<u64>)
    ensures
        match number_in(opt_str(text)) {
            Some(n) => r == Some(n as u64) && n == r.unwrap(),
            None => r is None,
        },
{
    match text {
        Some(t) => parse_u64(trim(t).as_str()),
        None => None,
    }
}

/// The memory that a group leaves, from the contents of its files; none where it
/// has no limit.
pub fn headroom(limit: Option<&str>, usage: Option<&str>, stat: Option<&str>) -> (r: Option<u64>)
    ensures
        match headroom_of(
            opt_str(limit),
            opt_str(usage),
            match stat {
                Some(s) => reclaimable_of(lines_of(s@)),
                None => 0,
            },
        ) {
            Some(n) => r == Some(n as u64) && n == r.unwrap(),
            None => r is None,
        },
{
    let limit: u64 = match read_number(limit) {
        Some(n) => n,
        None => {
            return None;
        },
    };
    if limit >= u64::MAX / 2 {
        return None;
    }
    let usage: u64 = match read_number(usage) {
        Some(n) => n,
        None => 0,
    };
    let reclaimable: u64 = match stat {
        Some(s) => reclaimable_bytes(s),
        None => 0,
    };
    let used: u64 = usage.saturating_sub(reclaimable);
    Some(limit.saturating_sub(used))
}

/// There are as many workers as there can be: with one more, the threads would be more
/// than the processor has, or the memory more than there is. A worker takes a gibibyte
/// and a half for each million pixels, a quarter more with half of the colour, and half
/// more with all of it.
pub proof fn one_more_worker_would_not_fit(
    info: VideoInfo,
    cpu_cores: nat,
    ram_bytes: nat,
    threads_per_worker: nat,
)
    requires
        threads_per_worker > 0,
    ensures
        ({
            let n = worker_count(info, cpu_cores, ram_bytes, threads_per_worker);
            let weight: nat = match info.pixel_format.subsampling {
                PixelSubsampling::Yuv420 => 4,
                PixelSubsampling::Yuv422 => 5,
                PixelSubsampling::Yuv444 => 6,
            };
            let each = 1_073_741_824 * (info.width as nat * info.height as nat) * 3 * weight;
            &&& n == 1 || n * threads_per_worker <= cpu_cores && n * each <= ram_bytes * 8_000_000
            &&& (n + 1) * threads_per_worker > cpu_cores || (n + 1) * each > ram_bytes * 8_000_000
        }),
{
    let n = worker_count(info, cpu_cores, ram_bytes, threads_per_worker);
    let m = worker_memory(info);
    let units = memory_units(ram_bytes);
    workers_fit_the_machine(info, cpu_cores, ram_bytes, threads_per_worker);
    let by_cpu = cpu_cores / threads_per_worker;
    assert(n >= 1);
    if m == 0 || by_cpu <= units / m {
        assert((n + 1) * threads_per_worker > cpu_cores) by (nonlinear_arith)
            requires
                n >= cpu_cores / threads_per_worker,
                threads_per_worker > 0,
        ;
    } else {
        assert((n + 1) * m > units) by (nonlinear_arith)
            requires
                n >= units / m,
                m > 0,
        ;
    }
}

/// The first line of the report that names the available memory counts, and without
/// one there is no number.
pub proof fn the_first_available_memory_counts(lines: Seq<Seq<char>>, i: int)
    requires
        0 <= i <= lines.len(),
        forall|k: int| 0 <= k < i ==> !has_prefix(#[trigger] lines[k], "MemAvailable:"@),
        i < lines.len() ==> has_prefix(lines[i], "MemAvailable:"@),
    ensures
        i == lines.len() ==> available_kib(lines) is None,
        i < lines.len() && words_of(lines[i]).len() < 2 ==> available_kib(lines) is None,
        i < lines.len() && words_of(lines[i]).len() >= 2 ==> available_kib(lines) == parse_nat(
            words_of(lines[i])[1],
            u64::MAX as nat,
        ),
    decreases lines.len(),
{
    if i > 0 {
        assert(!has_prefix(lines[0], "MemAvailable:"@));
        let rest = lines.skip(1);
        assert forall|k: int| 0 <= k < i - 1 implies !has_prefix(
            #[trigger] rest[k],
            "MemAvailable:"@,
        ) by {
            assert(rest[k] == lines[k + 1]);
        }
        if i < lines.len() {
            assert(rest[i - 1] == lines[i]);
        }
        the_first_available_memory_counts(rest, i - 1);
    }
}

/// A kibibyte is 1024 bytes, and a host that says nothing of its memory is taken to
/// have a gibibyte.
pub proof fn hosts_report_kibibytes(kib: nat)
    ensures
        kib * 1024 <= u64::MAX ==> host_bytes(Some(kib)) == kib * 1024,
        kib * 1024 > u64::MAX ==> host_bytes(Some(kib)) == u64::MAX,
        host_bytes(None) == 1024 * 1024 * 1024,
{
}

/// The memory that is counted on is what the host has or what one of the limits leaves.
pub proof fn counted_memory_is_there(first: nat, limits: Seq<u64>)
    ensures
        least(first, limits) == first || exists|i: int|
            0 <= i < limits.len() && least(first, limits) == #[trigger] limits[i],
    decreases limits.len(),
{
    if limits.len() > 0 {
        let init = limits.drop_last();
        counted_memory_is_there(first, init);
        assert(limits[limits.len() - 1] == limits.last());
        if least(first, limits) == least(first, init) && least(first, init) != first {
            let i = choose|i: int|
                0 <= i < init.len() && least(first, init) == #[trigger] init[i];
            assert(limits[i] == init[i]);
        }
    }
}

/// A line of the form `id:controllers:path` puts the process into the group `path` of
/// the controllers; the last line of a controller counts, and other lines do not.
pub proof fn groups_are_read_from_lines(
    lines: Seq<Seq<char>>,
    id: Seq<char>,
    controllers: Seq<char>,
    path: Seq<char>,
)
    requires
        forall|i: int| 0 <= i < id.len() ==> id[i] != ':',
        forall|i: int| 0 <= i < controllers.len() ==> controllers[i] != ':',
    ensures
        groups_of(lines.push(id + seq![':'] + (controllers + seq![':'] + path))) == groups_of(
            lines,
        ).insert(controllers, path),
        groups_of(lines.push(id)) == groups_of(lines),
        groups_of(lines.push(id + seq![':'] + controllers)) == groups_of(lines),
        groups_of(Seq::empty()).dom() == Set::<Seq<char>>::empty(),
{
    let rest = controllers + seq![':'] + path;
    texts_split_at_the_first_separator(id, ':', rest);
    texts_split_at_the_first_separator(id, ':', controllers);
    texts_split_at_the_first_separator(controllers, ':', path);
    assert(lines.push(id + seq![':'] + rest).drop_last() =~= lines);
    assert(lines.push(id).drop_last() =~= lines);
    assert(lines.push(id + seq![':'] + controllers).drop_last() =~= lines);
    assert(groups_of(Seq::empty()).dom() =~= Set::<Seq<char>>::empty());
}

/// On the way down to a group its root comes first, and each further part of the path
/// leads one directory down, below the one before; empty parts lead nowhere.
pub proof fn groups_lie_below_their_root(root: Seq<char>, parts: Seq<Seq<char>>, part: Seq<char>)
    ensures
        dirs_along(root, parts).len() > 0,
        dirs_along(root, parts)[0] == root,
        part.len() == 0 ==> dirs_along(root, parts.push(part)) == dirs_along(root, parts),
        part.len() > 0 ==> dirs_along(root, parts.push(part)) == dirs_along(root, parts).push(
            joined_path(dirs_along(root, parts).last(), part),
        ),
    decreases parts.len(),
{
    assert(parts.push(part).drop_last() =~= parts);
    if parts.len() > 0 {
        groups_lie_below_their_root(root, parts.drop_last(), part);
    }
}

/// A line counts the reclaimable bytes exactly when it begins with one of the two names
/// for them and a blank, and a number stands behind it.
pub proof fn reclaimable_bytes_are_named(key: Seq<char>, value: Seq<char>)
    requires
        forall|i: int| 0 <= i < key.len() ==> key[i] != ' ',
    ensures
        key == "inactive_file"@ || key == "total_inactive_file"@ ==> reclaimable_in(
            key + seq![' '] + value,
        ) == parse_nat(trimmed(value), u64::MAX as nat),
        key != "inactive_file"@ && key != "total_inactive_file"@ ==> reclaimable_in(
            key + seq![' '] + value,
        ) is None,
        reclaimable_in(key) is None,
{
    texts_split_at_the_first_separator(key, ' ', value);
}

/// The first line that counts the reclaimable bytes decides; without one there are
/// none.
pub proof fn the_first_reclaimable_bytes_count(lines: Seq<Seq<char>>, i: int)
    requires
        0 <= i <= lines.len(),
        forall|k: int| 0 <= k < i ==> reclaimable_in(#[trigger] lines[k]) is None,
        i < lines.len() ==> reclaimable_in(lines[i]) is Some,
    ensures
        i == lines.len() ==> reclaimable_of(lines) == 0,
        i < lines.len() ==> reclaimable_in(lines[i]) == Some(reclaimable_of(lines)),
    decreases lines.len(),
{
    if i > 0 {
        assert(reclaimable_in(lines[0]) is None);
        let rest = lines.skip(1);
        assert forall|k: int| 0 <= k < i - 1 implies reclaimable_in(
            #[trigger] rest[k],
        ) is None by {
            assert(rest[k] == lines[k + 1]);
        }
        if i < lines.len() {
            assert(rest[i - 1] == lines[i]);
        }
        the_first_reclaimable_bytes_count(rest, i - 1);
    }
}

/// What a group leaves, with what it uses beyond the reclaimable, is its limit; it
/// leaves all of it where it uses no more than can be reclaimed, and nothing where it
/// uses more than its limit. Where its limit is no number, or half of the numbers there
/// are, it has none.
pub proof fn groups_leave_what_they_do_not_use(
    limit: Seq<char>,
    usage: Option<Seq<char>>,
    reclaimable: nat,
)
    ensures
        ({
            let used: nat = match usage {
                Some(u) => match parse_nat(trimmed(u), u64::MAX as nat) {
                    Some(n) => n,
                    None => 0,
                },
                None => 0,
            };
            let left = headroom_of(Some(limit), usage, reclaimable);
            match parse_nat(trimmed(limit), u64::MAX as nat) {
                Some(max) => {
                    &&& left is None <==> max >= 0x7fff_ffff_ffff_ffff
                    &&& left matches Some(n) ==> {
                        &&& used <= reclaimable ==> n == max
                        &&& used > reclaimable && used <= reclaimable + max ==> n + used == max
                            + reclaimable
                        &&& used > reclaimable + max ==> n == 0
                    }
                },
                None => left is None,
            }
        }),
        headroom_of(None, usage, reclaimable) is None,
{
}

} // verus!
