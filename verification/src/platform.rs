//! What differs between hosts: path separators, library names, scratch files and the
//! room for native builds.

use crate::text;
use vstd::prelude::*;

verus! {

/// Whether paths are separated by a backslash, as the separator of the host tells.
pub fn is_windows_fs(separator: char) -> (r: bool)
    ensures
        r == (separator == '\\'),
{
    separator == '\\'
}

/// The path separator of the host.
pub fn sep(windows: bool) -> (c: char)
    ensures
        c == if windows {
            '\\'
        } else {
            '/'
        },
{
    if windows {
        '\\'
    } else {
        '/'
    }
}

/// The path separator of the host, as a text.
pub fn sep_str(windows: bool) -> (s: &'static str)
    ensures
        s@ == if windows {
            "\\"@
        } else {
            "/"@
        },
{
    if windows {
        "\\"
    } else {
        "/"
    }
}

/// The path separator that is not that of the host, as a text.
pub fn other_sep(windows: bool) -> (s: &'static str)
    ensures
        s@ == if windows {
            "/"@
        } else {
            "\\"@
        },
{
    if windows {
        "/"
    } else {
        "\\"
    }
}

/// The name of the directory for the intermediates of one build of process `pid`.
pub fn build_scratch_name(tag: &str, pid: u32) -> (s: String)
    ensures
        s@ == "loft_"@ + tag@ + "_"@ + text::decimal_of(pid as nat),
{
    let start: String = text::join("loft_", tag);
    let middle: String = text::join(start.as_str(), "_");
    text::join(middle.as_str(), text::decimal(pid as u64).as_str())
}

/// The second line of a text: behind the first line end, up to the next one.
pub open spec fn second_line(s: Seq<char>) -> Option<Seq<char>> {
    let a = text::first_at(s, '\n', 0) + 1;
    if a >= s.len() {
        None
    } else {
        Some(s.subrange(a, text::first_at(s, '\n', a)))
    }
}

/// A number of units of `unit` bytes in bytes, as far as the type reaches.
pub open spec fn in_bytes(n: nat, unit: nat) -> nat {
    if n * unit <= u64::MAX {
        n * unit
    } else {
        u64::MAX as nat
    }
}

fn bytes_of(n: u64, unit: u64) -> (r: u64)
    ensures
        r == in_bytes(n as nat, unit as nat),
{
    match n.checked_mul(unit) {
        Some(r) => r,
        None => u64::MAX,
    }
}

/// The free space that a report of `df -P -k` tells, in bytes: the fourth word of its
/// second line counts blocks of 1024 bytes.
pub open spec fn reported_space(s: Seq<char>) -> Option<nat> {
    match second_line(s) {
        Some(line) => match text::nth_word(line, 0, 3) {
            Some(w) => match text::number_up_to(w, u64::MAX as nat) {
                Some(n) => Some(in_bytes(n, 1024)),
                None => None,
            },
            None => None,
        },
        None => None,
    }
}

/// The free space that a report of `df -P -k` tells, in bytes; `None` for a text that
/// is no such report.
pub fn fs_avail_bytes(report: &str) -> (r: Option<u64>)
    ensures
        match r {
            Some(n) => reported_space(report@) == Some(n as nat),
            None => reported_space(report@) is None,
        },
{
    let n: usize = report.unicode_len();
    let end: usize = text::find_char(report, '\n', 0);
    if end >= n || end + 1 >= n {
        return None;
    }
    let stop: usize = text::find_char(report, '\n', end + 1);
    let line: &str = report.substring_char(end + 1, stop);
    assert(second_line(report@) == Some(line@));
    match text::word(line, 3) {
        Some(w) => match text::parse_number(w, u64::MAX) {
            Some(kb) => Some(bytes_of(kb, 1024)),
            None => None,
        },
        None => None,
    }
}

/// The space that a native build insists on where nothing is set, in megabytes.
pub const DEFAULT_MIN_FREE_MB: u64 = 512;

/// The space that a native build insists on, in bytes: what is set, in megabytes, where
/// that is a number.
pub open spec fn min_free(setting: Option<Seq<char>>) -> nat {
    let mb = match setting {
        Some(s) => match text::number_up_to(text::trimmed(s), u64::MAX as nat) {
            Some(n) => n,
            None => DEFAULT_MIN_FREE_MB as nat,
        },
        None => DEFAULT_MIN_FREE_MB as nat,
    };
    in_bytes(mb, 1024 * 1024)
}

/// The space that a native build insists on, in bytes.
pub fn tmpfs_min_free_bytes(setting: Option<&str>) -> (n: u64)
    ensures
        n == min_free(
            match setting {
                Some(s) => Some(s@),
                None => None,
            },
        ),
{
    let mb: u64 = match setting {
        Some(s) => match text::parse_number(text::trim(s), u64::MAX) {
            Some(n) => n,
            None => DEFAULT_MIN_FREE_MB,
        },
        None => DEFAULT_MIN_FREE_MB,
    };
    bytes_of(mb, 1024 * 1024)
}

/// Whether native binaries are stripped: unless the setting to keep symbols is there.
pub fn native_strip_symbols(keep_symbols: bool) -> (r: bool)
    ensures
        r == !keep_symbols,
{
    !keep_symbols
}

/// The process number at the end of a scratch name: behind its last underscore, before
/// its first dot.
pub open spec fn owner_pid(name: Seq<char>) -> Option<nat> {
    let stem = name.take(text::first_at(name, '.', 0));
    text::number_up_to(stem.skip(text::up_to_last(stem, '_', '_')), u32::MAX as nat)
}

/// The process number at the end of a scratch name.
pub fn scratch_owner_pid(name: &str) -> (r: Option<u32>)
    ensures
        match r {
            Some(p) => owner_pid(name@) == Some(p as nat),
            None => owner_pid(name@) is None,
        },
{
    let stem: &str = name.substring_char(0, text::find_char(name, '.', 0));
    assert(stem@ =~= name@.take(text::first_at(name@, '.', 0)));
    let from: usize = text::find_last(stem, '_', '_');
    let digits: &str = stem.substring_char(from, stem.unicode_len());
    assert(digits@ =~= stem@.skip(from as int));
    match text::parse_number(digits, u32::MAX as u64) {
        Some(n) => Some(n as u32),
        None => None,
    }
}

/// What stands for the process number in the names that a running program gives its own
/// scratch files.
pub open spec fn runtime_part(name: Seq<char>) -> Option<Seq<char>> {
    match text::without_start(name, "loft_native_bin_"@) {
        Some(rest) => Some(rest),
        None => match text::without_start(name, "loft_native_"@) {
            Some(rest) => text::without_end(rest, ".rs"@),
            None => None,
        },
    }
}

/// The process that a scratch file was made by, for the two names that a running program
/// gives its own scratch files and nothing else.
pub open spec fn runtime_pid(name: Seq<char>) -> Option<nat> {
    match runtime_part(name) {
        Some(digits) => if digits.len() > 0 && digits[0] == '+' {
            None
        } else {
            text::number_up_to(digits, u32::MAX as nat)
        },
        None => None,
    }
}

/// The process that a scratch file was made by; `None` for names that do not tell.
pub fn runtime_scratch_pid(name: &str) -> (r: Option<u32>)
    ensures
        match r {
            Some(p) => runtime_pid(name@) == Some(p as nat),
            None => runtime_pid(name@) is None,
        },
{
    let digits: &str = match text::strip_start(name, "loft_native_bin_") {
        Some(rest) => rest,
        None => match text::strip_start(name, "loft_native_") {
            Some(rest) => match text::strip_end(rest, ".rs") {
                Some(digits) => digits,
                None => {
                    return None;
                },
            },
            None => {
                return None;
            },
        },
    };
    if digits.unicode_len() > 0 && digits.get_char(0) == '+' {
        return None;
    }
    match text::parse_number(digits, u32::MAX as u64) {
        Some(n) => Some(n as u32),
        None => None,
    }
}

/// The number by which the host is asked about a process.  None that is zero or does
/// not fit a positive number names one: a negative number would address a group.
pub fn pid_to_ask(pid: u32) -> (r: Option<i32>)
    ensures
        r is Some <==> 0 < pid <= i32::MAX,
        r is Some ==> r->0 == pid,
{
    if pid == 0 || pid > 0x7fff_ffff {
        None
    } else {
        Some(pid as i32)
    }
}

/// Whether a process is alive, as far as the host can tell: one that names none is not.
/// `answer` tells what the host said, and is asked for only where a process is named.
pub open spec fn alive_of(pid: u32, answer: Option<bool>) -> Option<bool> {
    if 0 < pid <= i32::MAX {
        answer
    } else {
        Some(false)
    }
}

/// Whether a process is alive, from what the host answered.
pub fn pid_alive(pid: u32, answer: Option<bool>) -> (r: Option<bool>)
    ensures
        r == alive_of(pid, answer),
{
    if pid_to_ask(pid).is_some() {
        answer
    } else {
        Some(false)
    }
}

/// What the host answers of a process it was sent no signal for: it is there when the
/// signal could be sent, and also when it could not for any reason but that there is no
/// such process.
pub fn signal_answer(sent: bool, no_such_process: bool) -> (alive: bool)
    ensures
        alive == (sent || !no_such_process),
{
    sent || !no_such_process
}

/// A file in the scratch directory: its name, its size, its age where the host tells,
/// and what the host answers of the processes that its name tells.
#[derive(Debug)]
pub struct ScratchFile {
    pub name: String,
    pub len: u64,
    pub age_secs: Option<u64>,
    pub runtime_answer: Option<bool>,
    pub owner_answer: Option<bool>,
}

/// The age in seconds beyond which a scratch file of an unknown process is stale.
pub const STALE_SECS: u64 = 3600;

/// Whether a scratch file is one of ours.
pub open spec fn is_scratch(name: Seq<char>) -> bool {
    text::is_prefix("loft_native_"@, name) || text::is_prefix("loft_test_native_"@, name)
}

/// Whether the process that made a scratch file is known to be gone.
pub open spec fn proven_stale(f: ScratchFile, own: u32) -> bool {
    match runtime_pid(f.name@) {
        Some(p) => p != own && alive_of(p as u32, f.runtime_answer) == Some(false),
        None => false,
    }
}

/// The bytes of a megabyte.
pub const MEGABYTE: u64 = 0x10_0000;

/// Whether a scratch file is old enough to go, and nobody alive is behind its name.
pub open spec fn aged_stale(f: ScratchFile, own: u32) -> bool {
    let claimed = match owner_pid(f.name@) {
        Some(p) => p == own || alive_of(p as u32, f.owner_answer) == Some(true),
        None => false,
    };
    !claimed && match f.age_secs {
        Some(age) => age > STALE_SECS,
        None => false,
    }
}

/// Whether a scratch file is removed: the process that made it is gone, or, where old
/// files go too, it is stale by its age.
pub open spec fn reclaimed(f: ScratchFile, own: u32, aged_too: bool) -> bool {
    is_scratch(f.name@) && (proven_stale(f, own) || (aged_too && aged_stale(f, own)))
}

fn is_reclaimed(f: &ScratchFile, own: u32, aged_too: bool) -> (r: bool)
    ensures
        r == reclaimed(*f, own, aged_too),
{
    let name: &str = f.name.as_str();
    if !text::starts_with(name, "loft_native_") && !text::starts_with(name, "loft_test_native_") {
        return false;
    }
    let gone: bool = match runtime_scratch_pid(name) {
        Some(p) => p != own && pid_alive(p, f.runtime_answer) == Some(false),
        None => false,
    };
    if gone {
        return true;
    }
    if !aged_too {
        return false;
    }
    let claimed: bool = match scratch_owner_pid(name) {
        Some(p) => p == own || pid_alive(p, f.owner_answer) == Some(true),
        None => false,
    };
    let old_enough: bool = match f.age_secs {
        Some(age) => age > STALE_SECS,
        None => false,
    };
    !claimed && old_enough
}

/// The positions of the files that go, among the first `k`.
pub open spec fn reclaimed_among(
    files: Seq<ScratchFile>,
    own: u32,
    aged_too: bool,
    k: int,
) -> Seq<usize>
    decreases k,
{
    if k <= 0 {
        Seq::empty()
    } else if reclaimed(files[k - 1], own, aged_too) {
        reclaimed_among(files, own, aged_too, k - 1).push((k - 1) as usize)
    } else {
        reclaimed_among(files, own, aged_too, k - 1)
    }
}

fn reclaim_by(files: &Vec<ScratchFile>, own: u32, aged_too: bool) -> (out: Vec<usize>)
    ensures
        out@ == reclaimed_among(files@, own, aged_too, files.len() as int),
{
    let mut out: Vec<usize> = Vec::new();
    let mut i: usize = 0;
    while i < files.len()
        invariant
            i <= files.len(),
            out@ == reclaimed_among(files@, own, aged_too, i as int),
        decreases files.len() - i,
    {
        if is_reclaimed(&files[i], own, aged_too) {
            out.push(i);
        }
        i = i + 1;
    }
    out
}

/// The scratch files that go when space is short: those of processes that are gone, and
/// old ones that nobody alive is behind.  `own` is the process that asks.
pub fn reclaim_native_scratch(files: &Vec<ScratchFile>, own: u32) -> (out: Vec<usize>)
    ensures
        out@ == reclaimed_among(files@, own, true, files.len() as int),
{
    reclaim_by(files, own, true)
}

/// The scratch files that always go: those of processes that are gone.
pub fn reclaim_dead_native_scratch(files: &Vec<ScratchFile>, own: u32) -> (out: Vec<usize>)
    ensures
        out@ == reclaimed_among(files@, own, false, files.len() as int),
{
    reclaim_by(files, own, false)
}

/// The bytes of the first `k` files that were removed, as far as they can be counted.
pub open spec fn freed_by(files: Seq<ScratchFile>, removed: Seq<usize>, k: int) -> u64
    decreases k,
{
    if k <= 0 {
        0
    } else {
        let before = freed_by(files, removed, k - 1);
        let len = files[removed[k - 1] as int].len;
        if before + len > u64::MAX {
            u64::MAX
        } else {
            (before + len) as u64
        }
    }
}

/// The bytes that became free once the files at `removed` are gone.
pub fn freed(files: &Vec<ScratchFile>, removed: &Vec<usize>) -> (bytes: u64)
    requires
        forall|i: int| 0 <= i < removed.len() ==> #[trigger] removed@[i] < files.len(),
    ensures
        bytes == freed_by(files@, removed@, removed.len() as int),
{
    let mut bytes: u64 = 0;
    let mut i: usize = 0;
    while i < removed.len()
        invariant
            i <= removed.len(),
            forall|j: int| 0 <= j < removed.len() ==> #[trigger] removed@[j] < files.len(),
            bytes == freed_by(files@, removed@, i as int),
        decreases removed.len() - i,
    {
        bytes = bytes.saturating_add(files[removed[i]].len);
        i = i + 1;
    }
    bytes
}

/// A sweep names files that are there, each once, and in their order.
pub proof fn a_sweep_names_files(files: Seq<ScratchFile>, own: u32, aged_too: bool, k: int)
    requires
        0 <= k <= files.len() <= usize::MAX,
    ensures
        ({
            let gone = reclaimed_among(files, own, aged_too, k);
            &&& forall|i: int|
                0 <= i < gone.len() ==> #[trigger] gone[i] < k && reclaimed(
                    files[gone[i] as int],
                    own,
                    aged_too,
                )
            &&& forall|i: int, j: int|
                0 <= i < j < gone.len() ==> #[trigger] gone[i] < #[trigger] gone[j]
            &&& forall|i: int|
                0 <= i < k && reclaimed(#[trigger] files[i], own, aged_too) ==> gone.contains(
                    i as usize,
                )
        }),
    decreases k,
{
    if k > 0 {
        a_sweep_names_files(files, own, aged_too, k - 1);
        let before = reclaimed_among(files, own, aged_too, k - 1);
        let gone = reclaimed_among(files, own, aged_too, k);
        assert forall|i: int|
            0 <= i < k && reclaimed(#[trigger] files[i], own, aged_too) implies gone.contains(
            i as usize,
        ) by {
            if i == k - 1 {
                assert(gone[gone.len() - 1] == i as usize);
            } else {
                let j = choose|j: int| 0 <= j < before.len() && before[j] == i as usize;
                assert(gone[j] == i as usize);
            }
        }
    }
}

/// A second sweep of the files that the first one left removes nothing and frees nothing.
pub proof fn a_second_sweep_finds_nothing(
    files: Seq<ScratchFile>,
    left: Seq<ScratchFile>,
    own: u32,
    aged_too: bool,
)
    requires
        files.len() <= usize::MAX,
        forall|i: int|
            0 <= i < left.len() ==> exists|j: int|
                0 <= j < files.len() && #[trigger] left[i] == #[trigger] files[j]
                    && !reclaimed_among(files, own, aged_too, files.len() as int).contains(
                    j as usize,
                ),
    ensures
        reclaimed_among(left, own, aged_too, left.len() as int) == Seq::<usize>::empty(),
        freed_by(left, reclaimed_among(left, own, aged_too, left.len() as int), 0) == 0,
{
    a_sweep_names_files(files, own, aged_too, files.len() as int);
    assert forall|i: int| 0 <= i < left.len() implies !reclaimed(
        #[trigger] left[i],
        own,
        aged_too,
    ) by {
        let j = choose|j: int|
            0 <= j < files.len() && left[i] == #[trigger] files[j] && !reclaimed_among(
                files,
                own,
                aged_too,
                files.len() as int,
            ).contains(j as usize);
        assert(files[j] == left[i]);
    }
    none_reclaimed(left, own, aged_too, left.len() as int);
}

proof fn none_reclaimed(files: Seq<ScratchFile>, own: u32, aged_too: bool, k: int)
    requires
        k <= files.len(),
        forall|i: int| 0 <= i < files.len() ==> !reclaimed(#[trigger] files[i], own, aged_too),
    ensures
        reclaimed_among(files, own, aged_too, k) == Seq::<usize>::empty(),
    decreases k,
{
    if k > 0 {
        none_reclaimed(files, own, aged_too, k - 1);
        assert(!reclaimed(files[k - 1], own, aged_too));
    }
}

/// A text that writes a number without a sign holds digits alone.
proof fn digits_alone(s: Seq<char>, i: int)
    requires
        text::digits_value(s) is Some,
        0 <= i < s.len(),
    ensures
        s[i] != '.',
        s[i] != '_',
    decreases s.len(),
{
    if i < s.len() - 1 {
        digits_alone(s.drop_last(), i);
        assert(s.drop_last()[i] == s[i]);
    }
}

proof fn not_before(s: Seq<char>, c: char, i: int, j: int)
    requires
        0 <= i <= j <= s.len(),
        forall|k: int| i <= k < j ==> s[k] != c,
    ensures
        text::first_at(s, c, i) == text::first_at(s, c, j),
    decreases j - i,
{
    if i < j {
        not_before(s, c, i + 1, j);
    }
}

proof fn last_before(s: Seq<char>, c: char, k: int)
    requires
        0 < k <= s.len(),
        s[k - 1] == c,
        forall|i: int| k <= i < s.len() ==> s[i] != c,
    ensures
        text::up_to_last(s, c, c) == k,
    decreases s.len(),
{
    if k < s.len() {
        assert(s.last() != c);
        last_before(s.drop_last(), c, k);
    } else {
        assert(s.last() == c);
    }
}

/// Where the name of a scratch file tells the process that made it, that is the process
/// at its end.
pub proof fn maker_is_owner(name: Seq<char>)
    requires
        runtime_pid(name) is Some,
    ensures
        owner_pid(name) == runtime_pid(name),
{
    reveal_strlit("loft_native_bin_");
    reveal_strlit("loft_native_");
    reveal_strlit(".rs");
    let digits = runtime_part(name)->0;
    let n = name.len() as int;
    assert(text::digits_value(digits) is Some);
    assert forall|i: int| 0 <= i < digits.len() implies digits[i] != '.' && digits[i] != '_' by {
        digits_alone(digits, i);
    }
    let p = if text::is_prefix("loft_native_bin_"@, name) {
        "loft_native_bin_"@
    } else {
        "loft_native_"@
    };
    let k = p.len() as int;
    let e = k + digits.len();
    assert forall|i: int| 0 <= i < k implies name[i] == p[i] by {
        assert(name.take(k)[i] == p[i]);
    }
    assert forall|i: int| k <= i < e implies name[i] == digits[i - k] by {
        assert(name.skip(k)[i - k] == digits[i - k]);
    }
    if e < n {
        let rest = name.skip(k);
        assert(rest.skip(rest.len() - 3)[0] == '.');
        assert(name[e] == '.');
    }
    not_before(name, '.', 0, e);
    assert(text::first_at(name, '.', 0) == e);
    let stem = name.take(e);
    last_before(stem, '_', k);
    assert(stem.skip(k) =~= digits);
}

/// No file that goes was made by the process that asks.
pub proof fn own_files_stay(f: ScratchFile, own: u32, aged_too: bool)
    requires
        runtime_pid(f.name@) == Some(own as nat),
    ensures
        !reclaimed(f, own, aged_too),
{
    maker_is_owner(f.name@);
}

/// No file that goes was made by a process that is known to be alive.
pub proof fn files_of_the_living_stay(f: ScratchFile, own: u32, p: u32, aged_too: bool)
    requires
        runtime_pid(f.name@) == Some(p as nat),
        0 < p <= i32::MAX,
        f.runtime_answer == Some(true),
        f.owner_answer == Some(true),
    ensures
        !reclaimed(f, own, aged_too),
{
    maker_is_owner(f.name@);
}

/// A file that goes because its process is gone goes as well when space is short.
pub proof fn short_space_reclaims_more(f: ScratchFile, own: u32)
    requires
        reclaimed(f, own, false),
    ensures
        reclaimed(f, own, true),
{
}

/// How far a native build has come in looking for room: what was done last, and what it
/// answered.
#[derive(Clone, Copy, Debug, PartialEq, Eq, Structural)]
pub enum Space {
    /// Nothing was done.
    Begun,
    /// The files of processes that are gone were removed.
    DeadSwept,
    /// The space was measured.
    Measured(Option<u64>),
    /// The old files were removed as well, and this many bytes became free.
    OldSwept(u64),
    /// The space was measured once more.
    MeasuredAgain(Option<u64>),
}

/// What a native build does next about the space there is.
#[derive(Clone, Copy, Debug, PartialEq, Eq, Structural)]
pub enum SpaceAction {
    /// Remove the files of processes that are gone.
    SweepDead,
    Measure,
    /// Remove the old files as well.
    SweepOld,
    /// Tell how many megabytes became free, where any did, and measure once more.
    MeasureAgain(Option<u64>),
    /// There is room, or there is not.
    Answer(bool),
}

/// Whether there is room for a native build; space that cannot be measured is enough.
pub open spec fn space_enough(avail: Option<u64>, floor: u64) -> bool {
    match avail {
        Some(n) => n >= floor,
        None => true,
    }
}

/// What comes next: the files of processes that are gone always go first; the old ones
/// go where the space that is measured then is short.
pub open spec fn space_action(at: Space, floor: u64) -> SpaceAction {
    match at {
        Space::Begun => SpaceAction::SweepDead,
        Space::DeadSwept => SpaceAction::Measure,
        Space::Measured(avail) => if space_enough(avail, floor) {
            SpaceAction::Answer(true)
        } else {
            SpaceAction::SweepOld
        },
        Space::OldSwept(freed) => SpaceAction::MeasureAgain(
            if freed > 0 {
                Some((freed / MEGABYTE) as u64)
            } else {
                None
            },
        ),
        Space::MeasuredAgain(avail) => SpaceAction::Answer(space_enough(avail, floor)),
    }
}

/// What a native build that needs `floor` free bytes does next.
pub fn native_compile_space(at: Space, floor: u64) -> (next: SpaceAction)
    ensures
        next == space_action(at, floor),
{
    match at {
        Space::Begun => SpaceAction::SweepDead,
        Space::DeadSwept => SpaceAction::Measure,
        Space::Measured(avail) => if native_compile_space_ok(avail, floor) {
            SpaceAction::Answer(true)
        } else {
            SpaceAction::SweepOld
        },
        Space::OldSwept(freed) => SpaceAction::MeasureAgain(
            if freed > 0 {
                Some(freed / MEGABYTE)
            } else {
                None
            },
        ),
        Space::MeasuredAgain(avail) => SpaceAction::Answer(native_compile_space_ok(avail, floor)),
    }
}

/// Whether there is room for a native build.
pub fn native_compile_space_ok(avail: Option<u64>, floor: u64) -> (r: bool)
    ensures
        r == space_enough(avail, floor),
{
    match avail {
        Some(n) => n >= floor,
        None => true,
    }
}

/// Whether doing `action` leads to `at`, whatever it answers.
pub open spec fn leads_to(action: SpaceAction, at: Space) -> bool {
    match action {
        SpaceAction::SweepDead => at is DeadSwept,
        SpaceAction::Measure => at is Measured,
        SpaceAction::SweepOld => at is OldSwept,
        SpaceAction::MeasureAgain(_) => at is MeasuredAgain,
        SpaceAction::Answer(_) => false,
    }
}

/// Whether a look for room goes through these stages.
pub open spec fn looks_for_room(stages: Seq<Space>, floor: u64) -> bool {
    &&& stages.len() > 0
    &&& stages[0] == Space::Begun
    &&& forall|i: int|
        0 <= i < stages.len() - 1 ==> leads_to(
            space_action(#[trigger] stages[i], floor),
            stages[i + 1],
        )
}

/// Every look for room first removes the files of processes that are gone, and does so
/// once.  The old files go only behind that, where the space that was measured is short;
/// the answer comes behind one measure or two, and is that of the last.
pub proof fn dead_files_go_first(stages: Seq<Space>, floor: u64)
    requires
        looks_for_room(stages, floor),
    ensures
        stages.len() <= 5,
        space_action(stages[0], floor) == SpaceAction::SweepDead,
        forall|i: int|
            0 < i < stages.len() ==> space_action(#[trigger] stages[i], floor)
                != SpaceAction::SweepDead,
        forall|i: int|
            0 <= i < stages.len() && space_action(#[trigger] stages[i], floor)
                == SpaceAction::SweepOld ==> i == 2 && stages[1] == Space::DeadSwept
                && (stages[i] matches Space::Measured(avail) && !space_enough(avail, floor)),
        forall|i: int|
            0 <= i < stages.len() && space_action(#[trigger] stages[i], floor) is Answer ==> {
                &&& i == stages.len() - 1
                &&& i == 2 || i == 4
                &&& space_action(stages[i], floor) == SpaceAction::Answer(
                    match stages[i] {
                        Space::Measured(avail) => space_enough(avail, floor),
                        Space::MeasuredAgain(avail) => space_enough(avail, floor),
                        _ => false,
                    },
                )
            },
{
    if stages.len() > 1 {
        assert(leads_to(space_action(stages[0], floor), stages[1]));
    }
    if stages.len() > 2 {
        assert(leads_to(space_action(stages[1], floor), stages[2]));
    }
    if stages.len() > 3 {
        assert(leads_to(space_action(stages[2], floor), stages[3]));
    }
    if stages.len() > 4 {
        assert(leads_to(space_action(stages[3], floor), stages[4]));
    }
    if stages.len() > 5 {
        assert(leads_to(space_action(stages[4], floor), stages[5]));
    }
}

/// The smaller of two numbers.
pub open spec fn at_most(a: usize, b: usize) -> usize {
    if a <= b {
        a
    } else {
        b
    }
}

/// How many native builds the scratch space holds at a time.
pub open spec fn space_cap(avail: Option<u64>, reserve: u64) -> usize {
    match avail {
        Some(n) => if reserve > 0 {
            if n / reserve >= 1 {
                (n / reserve) as usize
            } else {
                1
            }
        } else {
            usize::MAX
        },
        None => usize::MAX,
    }
}

/// How many workers run `job_count` native builds: as many as there are processors,
/// jobs and room for, and at least one.  `reserve_per_worker` is what one build takes.
pub fn native_worker_count(
    cpu_max: usize,
    job_count: usize,
    avail: Option<u64>,
    reserve_per_worker: u64,
) -> (n: usize)
    ensures
        n >= 1,
        ({
            let m = at_most(at_most(cpu_max, job_count), space_cap(avail, reserve_per_worker));
            n == if m >= 1 {
                m
            } else {
                1
            }
        }),
{
    let cap: usize = match avail {
        Some(n) => if reserve_per_worker > 0 {
            let fits: u64 = n / reserve_per_worker;
            if fits >= 1 {
                #[verifier::truncate]
                (fits as usize)
            } else {
                1
            }
        } else {
            usize::MAX
        },
        None => usize::MAX,
    };
    let jobs: usize = if cpu_max <= job_count {
        cpu_max
    } else {
        job_count
    };
    let m: usize = if jobs <= cap {
        jobs
    } else {
        cap
    };
    if m >= 1 {
        m
    } else {
        1
    }
}

/// A convention for the names of libraries.
#[derive(Clone, Copy, Debug, PartialEq, Eq, Structural)]
pub enum LibOs {
    Linux,
    Macos,
    Windows,
}

/// The convention of a host.
pub fn host_lib_os(macos: bool, windows: bool) -> (os: LibOs)
    ensures
        os == if macos {
            LibOs::Macos
        } else if windows {
            LibOs::Windows
        } else {
            LibOs::Linux
        },
{
    if macos {
        LibOs::Macos
    } else if windows {
        LibOs::Windows
    } else {
        LibOs::Linux
    }
}

/// What a linker is told so that a library on this host knows its own name: only one
/// kind of host records a name inside a library.
pub open spec fn install_args(name: Seq<char>, os: LibOs) -> Seq<Seq<char>> {
    if os == LibOs::Macos {
        seq!["-Wl,-install_name,@rpath/"@ + name]
    } else {
        Seq::empty()
    }
}

/// What a linker is told so that a library knows its own final name.
pub fn install_name_args(final_file_name: &str, os: LibOs) -> (args: Vec<String>)
    ensures
        text::texts(args@) == install_args(final_file_name@, os),
{
    let mut args: Vec<String> = Vec::new();
    if os == LibOs::Macos {
        args.push(text::join("-Wl,-install_name,@rpath/", final_file_name));
    }
    assert(text::texts(args@) =~= install_args(final_file_name@, os));
    args
}

/// What a linker is told so that it writes an import library: only one kind of host
/// needs one beside a library.
pub open spec fn implib_args(path: Seq<char>, os: LibOs) -> Seq<Seq<char>> {
    if os == LibOs::Windows {
        seq!["-Wl,--out-implib,"@ + path]
    } else {
        Seq::empty()
    }
}

/// What a linker is told so that it writes an import library at a path.
pub fn shim_implib_args(implib_path: &str, os: LibOs) -> (args: Vec<String>)
    ensures
        text::texts(args@) == implib_args(implib_path@, os),
{
    let mut args: Vec<String> = Vec::new();
    if os == LibOs::Windows {
        args.push(text::join("-Wl,--out-implib,", implib_path));
    }
    assert(text::texts(args@) =~= implib_args(implib_path@, os));
    args
}

/// The name of the import library of a library.
pub open spec fn implib_name(name: Seq<char>) -> Seq<char> {
    match text::without_end(name, ".dll"@) {
        Some(stem) => stem + ".lib"@,
        None => name + ".lib"@,
    }
}

/// The name of the import library of a library; `None` on hosts without such.
pub fn shim_implib_name(final_file_name: &str, os: LibOs) -> (r: Option<String>)
    ensures
        r is Some <==> os == LibOs::Windows,
        r is Some ==> r->0@ == implib_name(final_file_name@),
{
    if os != LibOs::Windows {
        return None;
    }
    let stem: &str = match text::strip_end(final_file_name, ".dll") {
        Some(stem) => stem,
        None => final_file_name,
    };
    Some(text::join(stem, ".lib"))
}

/// The version at the end of a library name: behind a dot, and not empty.
pub open spec fn version_of(rest: Seq<char>) -> Option<Seq<char>> {
    match text::without_start(rest, "."@) {
        Some(v) => if v.len() > 0 {
            Some(v)
        } else {
            None
        },
        None => None,
    }
}

/// The names that a library has elsewhere: its directory, what stands before `.so`, and
/// what stands behind it.
pub open spec fn translated(dir: Seq<char>, stem: Seq<char>, rest: Seq<char>, os: LibOs) -> Seq<
    Seq<char>,
> {
    if os == LibOs::Macos {
        match version_of(rest) {
            Some(v) => seq![dir + (stem + "."@ + v + ".dylib"@), dir + (stem + ".dylib"@)],
            None => seq![dir + (stem + ".dylib"@)],
        }
    } else {
        let bare = match text::without_start(stem, "lib"@) {
            Some(b) => b,
            None => stem,
        };
        seq![dir + (bare + ".dll"@), dir + (stem + ".dll"@)]
    }
}

/// The names by which a library is looked for: the declared one first, then those that
/// the host would give it.
pub open spec fn variants(name: Seq<char>, os: LibOs) -> Seq<Seq<char>> {
    let k = text::up_to_last(name, '/', '\\');
    let file = name.skip(k);
    if os == LibOs::Linux {
        seq![name]
    } else {
        match text::first_part(file, ".so"@, 0) {
            Some(i) => seq![name] + translated(name.take(k), file.take(i), file.skip(i + 3), os),
            None => seq![name],
        }
    }
}

fn find_version(rest: &str) -> (r: Option<&str>)
    ensures
        match r {
            Some(v) => version_of(rest@) == Some(v@),
            None => version_of(rest@) is None,
        },
{
    match text::strip_start(rest, ".") {
        Some(v) => if v.unicode_len() > 0 {
            Some(v)
        } else {
            None
        },
        None => None,
    }
}

fn in_dir(dir: &str, stem: &str, end: &str) -> (s: String)
    ensures
        s@ == dir@ + (stem@ + end@),
{
    let file: String = text::join(stem, end);
    text::join(dir, file.as_str())
}

fn translate(dir: &str, stem: &str, rest: &str, os: LibOs, out: &mut Vec<String>)
    requires
        os != LibOs::Linux,
    ensures
        text::texts(final(out)@) == text::texts(old(out)@) + translated(dir@, stem@, rest@, os),
{
    let ghost before = text::texts(out@);
    if os == LibOs::Macos {
        match find_version(rest) {
            Some(v) => {
                let dotted: String = text::join(stem, ".");
                let versioned: String = text::join(dotted.as_str(), v);
                out.push(in_dir(dir, versioned.as_str(), ".dylib"));
            },
            None => {},
        }
        out.push(in_dir(dir, stem, ".dylib"));
    } else {
        let bare: &str = match text::strip_start(stem, "lib") {
            Some(b) => b,
            None => stem,
        };
        out.push(in_dir(dir, bare, ".dll"));
        out.push(in_dir(dir, stem, ".dll"));
    }
    assert(text::texts(out@) =~= before + translated(dir@, stem@, rest@, os));
}

/// The names by which a library is looked for on a host of a convention.
pub fn lib_variants(name: &str, os: LibOs) -> (out: Vec<String>)
    ensures
        text::texts(out@) == variants(name@, os),
{
    let mut out: Vec<String> = Vec::new();
    out.push(name.to_owned());
    assert(text::texts(out@) =~= seq![name@]);
    if os == LibOs::Linux {
        return out;
    }
    proof {
        reveal_strlit(".so");
    }
    let n: usize = name.unicode_len();
    let k: usize = text::find_last(name, '/', '\\');
    let dir: &str = name.substring_char(0, k);
    let file: &str = name.substring_char(k, n);
    assert(dir@ =~= name@.take(k as int));
    assert(file@ =~= name@.skip(k as int));
    match text::find_part(file, ".so") {
        Some(i) => {
            let stem: &str = file.substring_char(0, i);
            let rest: &str = file.substring_char(i + 3, file.unicode_len());
            assert(stem@ =~= file@.take(i as int));
            assert(rest@ =~= file@.skip(i + 3));
            translate(dir, stem, rest, os, &mut out);
        },
        None => {},
    }
    out
}

/// The names by which a library is looked for on a host.
pub fn host_lib_variants(name: &str, macos: bool, windows: bool) -> (out: Vec<String>)
    ensures
        text::texts(out@) == variants(
            name@,
            if macos {
                LibOs::Macos
            } else if windows {
                LibOs::Windows
            } else {
                LibOs::Linux
            },
        ),
{
    lib_variants(name, host_lib_os(macos, windows))
}

/// The first of the names from `i` on that is among those present.
pub open spec fn first_present(
    names: Seq<Seq<char>>,
    present: Seq<Seq<char>>,
    i: int,
) -> Option<Seq<char>>
    decreases names.len() - i,
{
    if i < 0 || i >= names.len() {
        None
    } else if present.contains(names[i]) {
        Some(names[i])
    } else {
        first_present(names, present, i + 1)
    }
}

/// The name under which a library is really there, among the files `present` beside a
/// package; the declared name goes before those of the host.
pub fn existing_lib_beside(name: &str, os: LibOs, present: &Vec<String>) -> (r: Option<String>)
    ensures
        match r {
            Some(s) => first_present(variants(name@, os), text::texts(present@), 0) == Some(s@),
            None => first_present(variants(name@, os), text::texts(present@), 0) is None,
        },
{
    let names: Vec<String> = lib_variants(name, os);
    let ghost all = text::texts(names@);
    let ghost there = text::texts(present@);
    let mut i: usize = 0;
    while i < names.len()
        invariant
            i <= names.len(),
            all == text::texts(names@),
            all == variants(name@, os),
            there == text::texts(present@),
            first_present(all, there, 0) == first_present(all, there, i as int),
        decreases names.len() - i,
    {
        assert(all[i as int] == names@[i as int]@);
        if text::contains(present, names[i].as_str()) {
            return Some(names[i].clone());
        }
        i = i + 1;
    }
    None
}

/// The declared name of a library is looked for first, whatever the host.
pub proof fn declared_name_first(name: Seq<char>, os: LibOs)
    ensures
        variants(name, os).len() >= 1,
        variants(name, os)[0] == name,
{
}

/// A library that is there under its declared name is taken under that.
pub proof fn declared_name_wins(name: Seq<char>, os: LibOs, present: Seq<Seq<char>>)
    requires
        present.contains(name),
    ensures
        first_present(variants(name, os), present, 0) == Some(name),
{
    declared_name_first(name, os);
}

/// Every name that a library is looked for by stands in the directory of the declared
/// one.
pub proof fn variants_stay_in_the_directory(name: Seq<char>, os: LibOs, i: int)
    requires
        0 <= i < variants(name, os).len(),
    ensures
        text::is_prefix(
            name.take(text::up_to_last(name, '/', '\\')),
            variants(name, os)[i],
        ),
{
    let k = text::up_to_last(name, '/', '\\');
    last_within(name);
    let dir = name.take(k);
    let v = variants(name, os)[i];
    if i == 0 {
        assert(v == name);
    } else {
        let file = name.skip(k);
        let at = text::first_part(file, ".so"@, 0)->0;
        let more = translated(dir, file.take(at), file.skip(at + 3), os);
        assert(v == more[i - 1]);
        assert(v.take(dir.len() as int) =~= dir);
    }
}

proof fn last_within(s: Seq<char>)
    ensures
        0 <= text::up_to_last(s, '/', '\\') <= s.len(),
    decreases s.len(),
{
    if s.len() > 0 && s.last() != '/' && s.last() != '\\' {
        last_within(s.drop_last());
    }
}

} // verus!
