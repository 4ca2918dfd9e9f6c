//! Host names, scratch files and room for builds.

use loft::placement::{tag, HASH, INDEX, RADIX, TRIE};
use loft::platform::{
    build_scratch_name, existing_lib_beside, freed, fs_avail_bytes, host_lib_os, host_lib_variants,
    install_name_args, is_windows_fs, lib_variants, native_compile_space, native_compile_space_ok,
    native_strip_symbols, native_worker_count, other_sep, pid_alive, pid_to_ask,
    reclaim_dead_native_scratch, reclaim_native_scratch, runtime_scratch_pid, scratch_owner_pid,
    sep, sep_str, shim_implib_args, shim_implib_name, signal_answer, tmpfs_min_free_bytes, LibOs,
    ScratchFile, Space, SpaceAction,
};

#[test]
fn windows_asks_for_an_import_library_and_other_hosts_do_not() {
    assert_eq!(
        shim_implib_name("sqlite_shim_5aed31d6bafbf9f8.dll", LibOs::Windows)
            .expect("Windows needs an import library"),
        "sqlite_shim_5aed31d6bafbf9f8.lib",
        "the DLL's stem — the exact name `-l sqlite_shim_<key>` makes link.exe open"
    );
    assert_eq!(
        shim_implib_args("out/foo.lib", LibOs::Windows),
        ["-Wl,--out-implib,out/foo.lib"]
    );
    for os in [LibOs::Linux, LibOs::Macos] {
        assert!(
            shim_implib_name("libfoo.so", os).is_none(),
            "an ELF/Mach-O shared object is linked directly; there is no second file"
        );
        assert!(shim_implib_args("out/foo.lib", os).is_empty());
    }
}

#[test]
fn macos_pins_the_final_name_and_other_hosts_add_nothing() {
    assert_eq!(
        install_name_args("lcshim_shim_bda315af5ea4cb63.dylib", LibOs::Macos),
        ["-Wl,-install_name,@rpath/lcshim_shim_bda315af5ea4cb63.dylib"],
        "the FINAL file name, and @rpath so the emitted -rpath resolves it"
    );
    for os in [LibOs::Linux, LibOs::Windows] {
        assert!(
            install_name_args("libfoo.so", os).is_empty(),
            "ELF sets a SONAME only when asked, and a DLL has no such record"
        );
    }
}

#[test]
fn the_install_name_is_relative_to_rpath() {
    let a = install_name_args("x.dylib", LibOs::Macos);
    assert!(a[0].starts_with("-Wl,-install_name,@rpath/"), "{a:?}");
    assert!(
        !a[0].contains("/native-auto/") && !a[0].contains(".tmp"),
        "neither the staging path nor an absolute directory may survive: {a:?}"
    );
}

#[test]
fn pid_liveness_is_decidable_and_never_asks_about_a_group() {
    let me = 4321;
    assert_eq!(pid_to_ask(me), Some(me as i32));
    assert_eq!(
        pid_alive(me, Some(signal_answer(true, false))),
        Some(true),
        "this process is alive"
    );
    assert_eq!(
        pid_alive(u32::MAX - 1, Some(true)),
        Some(false),
        "a pid past pid_t names no process, and must not become group 2"
    );
    assert_eq!(pid_to_ask(u32::MAX - 1), None);
    assert_eq!(
        pid_alive(0, Some(true)),
        Some(false),
        "pid 0 addresses a group, not a process"
    );
    assert_eq!(pid_to_ask(0), None);
    assert_eq!(
        pid_alive(1, Some(signal_answer(false, false))),
        Some(true),
        "pid 1 exists whether or not we may signal it"
    );
    assert_eq!(pid_alive(1, Some(signal_answer(false, true))), Some(false));
    assert_eq!(pid_alive(1, None), None);
}

fn scratch(name: &str, age: u64, answer: Option<bool>) -> ScratchFile {
    ScratchFile {
        name: name.to_string(),
        len: 5,
        age_secs: Some(age),
        runtime_answer: answer,
        owner_answer: answer,
    }
}

#[test]
fn reclaim_spares_live_and_fresh_files() {
    let own = 1234;
    let files = vec![
        scratch("loft_native_1234.rs", 0, Some(true)),
        // no real pid; provably dead
        scratch("loft_native_4294967294.rs", 0, None),
        scratch("loft_native_bin_notapid", 0, None),
        // a stem that happens to end in digits
        scratch("loft_native_discard_slot_per_type_795.rs", 0, Some(false)),
        scratch("other_program_99.rs", 99_999, Some(false)),
    ];
    assert_eq!(
        reclaim_dead_native_scratch(&files, own),
        [1],
        "the dead-only sweep must reclaim the dead-pid file and no other"
    );
    assert_eq!(
        reclaim_native_scratch(&files, own),
        [1],
        "own-pid, fresh and stem-named files survive"
    );
    let mut files = files;
    for (file, text) in files.iter_mut().zip(["live", "stale", "fresh", "fresh", "other"]) {
        file.len = text.len() as u64;
    }
    let gone = reclaim_native_scratch(&files, own);
    assert_eq!(freed(&files, &gone), 5, "the bytes of the one that went");
    files.remove(1);
    assert!(reclaim_native_scratch(&files, own).is_empty(), "nothing is left to go");
    assert_eq!(freed(&files, &vec![]), 0);
    files[0].len = u64::MAX;
    assert_eq!(freed(&files, &vec![0, 1]), u64::MAX);
    let old = vec![
        scratch("loft_native_1234.rs", 9_999, Some(true)),
        scratch("loft_native_bin_notapid", 3_601, None),
        scratch("loft_native_bin_notapid", 3_600, None),
        scratch("loft_test_native_77", 9_999, Some(true)),
        scratch("loft_test_native_77", 9_999, Some(false)),
        scratch("loft_test_native_stem_bin", 9_999, None),
    ];
    assert!(reclaim_dead_native_scratch(&old, own).is_empty());
    assert_eq!(reclaim_native_scratch(&old, own), [1, 4, 5]);
}

#[test]
fn scratch_names_tell_their_process() {
    assert_eq!(scratch_owner_pid("loft_native_42.rs"), Some(42));
    assert_eq!(scratch_owner_pid("loft_native_bin_7"), Some(7));
    assert_eq!(scratch_owner_pid("loft_native_x.12"), None);
    assert_eq!(scratch_owner_pid("99"), Some(99));
    assert_eq!(scratch_owner_pid("loft_native_4294967296"), None);
    assert_eq!(runtime_scratch_pid("loft_native_bin_42"), Some(42));
    assert_eq!(runtime_scratch_pid("loft_native_42.rs"), Some(42));
    assert_eq!(runtime_scratch_pid("loft_native_42"), None);
    assert_eq!(runtime_scratch_pid("loft_native_bin_"), None);
    assert_eq!(runtime_scratch_pid("loft_native_bin_+4"), None);
    assert_eq!(runtime_scratch_pid("loft_native_a_4.rs"), None);
    assert_eq!(runtime_scratch_pid("loft_native_4294967296.rs"), None);
}

#[test]
fn free_space_is_read_from_the_report() {
    let report = "Filesystem 1024-blocks Used Available Capacity Mounted on\n\
                  tmpfs        1000   200       800     20% /tmp\n";
    assert_eq!(fs_avail_bytes(report), Some(800 * 1024));
    assert_eq!(fs_avail_bytes("header only\n"), None);
    assert_eq!(fs_avail_bytes("header\none two three\n"), None);
    assert_eq!(fs_avail_bytes("header\na b c nan\n"), None);
    assert_eq!(fs_avail_bytes(""), None);
    assert_eq!(fs_avail_bytes("h\na b c 18446744073709551615"), Some(u64::MAX));
    assert_eq!(fs_avail_bytes("h\na b c 18446744073709551616"), None);
}

#[test]
fn the_space_floor_can_be_set() {
    assert_eq!(tmpfs_min_free_bytes(None), 512 * 1024 * 1024);
    assert_eq!(tmpfs_min_free_bytes(Some(" 3\n")), 3 * 1024 * 1024);
    assert_eq!(tmpfs_min_free_bytes(Some("+3")), 3 * 1024 * 1024);
    assert_eq!(tmpfs_min_free_bytes(Some("three")), 512 * 1024 * 1024);
    assert_eq!(tmpfs_min_free_bytes(Some("")), 512 * 1024 * 1024);
    assert_eq!(tmpfs_min_free_bytes(Some("-3")), 512 * 1024 * 1024);
    assert_eq!(tmpfs_min_free_bytes(Some("18446744073709551615")), u64::MAX);
}

#[test]
fn space_that_cannot_be_measured_is_enough() {
    assert!(native_compile_space_ok(None, 100));
    assert!(native_compile_space_ok(Some(100), 100));
    assert!(!native_compile_space_ok(Some(99), 100));
    assert!(native_strip_symbols(false));
    assert!(!native_strip_symbols(true));
}

#[test]
fn the_files_of_dead_processes_go_before_the_space_is_measured() {
    let next = |at: Space| native_compile_space(at, 100);
    assert_eq!(next(Space::Begun), SpaceAction::SweepDead);
    assert_eq!(next(Space::DeadSwept), SpaceAction::Measure);
    assert_eq!(next(Space::Measured(None)), SpaceAction::Answer(true));
    assert_eq!(next(Space::Measured(Some(100))), SpaceAction::Answer(true));
    assert_eq!(next(Space::Measured(Some(99))), SpaceAction::SweepOld);
    assert_eq!(next(Space::OldSwept(0)), SpaceAction::MeasureAgain(None));
    assert_eq!(next(Space::OldSwept(1)), SpaceAction::MeasureAgain(Some(0)));
    assert_eq!(next(Space::OldSwept(5 * 1024 * 1024 + 7)), SpaceAction::MeasureAgain(Some(5)));
    assert_eq!(next(Space::MeasuredAgain(Some(99))), SpaceAction::Answer(false));
    assert_eq!(next(Space::MeasuredAgain(Some(100))), SpaceAction::Answer(true));
    assert_eq!(next(Space::MeasuredAgain(None)), SpaceAction::Answer(true));
}

#[test]
fn workers_fit_processors_jobs_and_space() {
    assert_eq!(native_worker_count(8, 20, None, 10), 8);
    assert_eq!(native_worker_count(8, 3, None, 10), 3);
    assert_eq!(native_worker_count(8, 20, Some(45), 10), 4);
    assert_eq!(native_worker_count(8, 20, Some(4), 10), 1);
    assert_eq!(native_worker_count(8, 20, Some(4), 0), 8);
    assert_eq!(native_worker_count(0, 0, None, 10), 1);
}

#[test]
fn separators_are_those_of_the_host() {
    assert!(is_windows_fs('\\'));
    assert!(!is_windows_fs('/'));
    assert_eq!((sep(true), sep_str(true), other_sep(true)), ('\\', "\\", "/"));
    assert_eq!((sep(false), sep_str(false), other_sep(false)), ('/', "/", "\\"));
    assert_eq!(build_scratch_name("html", 907), "loft_html_907");
}

#[test]
fn libraries_are_looked_for_under_the_names_of_the_host() {
    assert_eq!(lib_variants("libmariadb.so.3", LibOs::Linux), ["libmariadb.so.3"]);
    assert_eq!(
        lib_variants("libmariadb.so.3", LibOs::Macos),
        ["libmariadb.so.3", "libmariadb.3.dylib", "libmariadb.dylib"]
    );
    assert_eq!(
        lib_variants("../../liblc_types.so", LibOs::Macos),
        ["../../liblc_types.so", "../../liblc_types.dylib"]
    );
    assert_eq!(
        lib_variants("..\\libfoo.so.1", LibOs::Windows),
        ["..\\libfoo.so.1", "..\\foo.dll", "..\\libfoo.dll"]
    );
    assert_eq!(lib_variants("foo.so", LibOs::Windows), ["foo.so", "foo.dll", "foo.dll"]);
    assert_eq!(lib_variants("libfoo.so.", LibOs::Macos), ["libfoo.so.", "libfoo.dylib"]);
    assert_eq!(lib_variants("foo.dll", LibOs::Windows), ["foo.dll"]);
    assert_eq!(host_lib_variants("libz.so", true, false), lib_variants("libz.so", LibOs::Macos));
    assert_eq!(host_lib_os(false, true), LibOs::Windows);
    assert_eq!(host_lib_os(false, false), LibOs::Linux);
}

#[test]
fn a_library_beside_a_package_is_found_by_its_declared_name_first() {
    let there = |names: &[&str]| names.iter().map(|s| s.to_string()).collect::<Vec<String>>();
    assert_eq!(
        existing_lib_beside("libfoo.so", LibOs::Macos, &there(&["libfoo.dylib", "libfoo.so"])),
        Some("libfoo.so".to_string())
    );
    assert_eq!(
        existing_lib_beside("libfoo.so", LibOs::Macos, &there(&["libfoo.dylib"])),
        Some("libfoo.dylib".to_string())
    );
    assert_eq!(existing_lib_beside("libfoo.so", LibOs::Linux, &there(&["libfoo.dylib"])), None);
}

#[test]
fn only_a_changed_placement_is_tagged() {
    assert_eq!(tag(HASH), ",placement=2");
    for token in [INDEX, RADIX, TRIE] {
        assert_eq!(tag(token), "");
    }
    assert_eq!(tag("3"), ",placement=3");
}
