//! Benchmark scenarios: the grid of total sizes, file counts and peer setups,
//! the names and descriptions of its scenarios, the selection of scenarios by
//! group or by a comma-separated list of names, and the names of the data and
//! torrent files a scenario uses.
use vstd::prelude::*;
use crate::text::{push_char, push_ascii, str_eq, to_lowercase, trim};
use crate::decimal::push_digits;

verus! {

pub const MB: u64 = 1024 * 1024;

pub const GB: u64 = 1024 * MB;

/// The tracker that the benchmark's torrents announce to.
pub const TRACKER_ANNOUNCE: &'static str = "http://tracker:6969/announce";

/// The HTTP API of the rtbit client under test.
pub const RTBIT_API: &'static str = "http://rtbit:3030";

/// The Web API of the qBittorrent client under test.
pub const QBT_API: &'static str = "http://qbittorrent:8080";

/// The Prometheus server that collects the containers' metrics.
pub const PROMETHEUS_API: &'static str = "http://prometheus:9090";

/// How often a download's progress is polled, in milliseconds.
pub const POLL_INTERVAL_MS: u64 = 1000;

/// `n` written in decimal.
pub open spec fn dec(n: nat) -> Seq<char> {
    crate::text::ascii_chars(crate::decimal::digits_of(n))
}

/// Appends the characters of `t`.
pub fn append_str(s: &mut String, t: &str)
    ensures
        final(s)@ == old(s)@ + t@,
{
    let n = t.unicode_len();
    let mut i: usize = 0;
    while i < n
        invariant
            0 <= i <= n,
            n == t@.len(),
            s@ == old(s)@ + t@.take(i as int),
        decreases n - i,
    {
        push_char(s, t.get_char(i));
        i = i + 1;
        assert(s@ =~= old(s)@ + t@.take(i as int));
    }
    assert(t@.take(i as int) =~= t@);
}

/// Appends `n` in decimal.
pub fn append_num(s: &mut String, n: u64)
    ensures
        final(s)@ == old(s)@ + dec(n as nat),
{
    let mut v: Vec<u8> = Vec::new();
    push_digits(&mut v, n);
    proof {
        crate::decimal::lemma_digits_of(n as nat);
        assert(v@ =~= crate::decimal::digits_of(n as nat));
        assert forall|k: int| 0 <= k < v@.len() implies v@[k] < 128 by {
            assert(crate::decimal::is_digit(v@[k]));
        }
    }
    push_ascii(s, v.as_slice());
}

/// A benchmark scenario.
#[derive(Debug, Clone)]
pub struct Scenario {
    pub name: String,
    pub description: String,
    pub file_size: u64,
    pub num_files: usize,
    pub real_seeders: usize,
    pub mock_peers: usize,
    pub timeout_secs: u64,
}

/// A scenario with its texts as character sequences.
pub struct ScenarioView {
    pub name: Seq<char>,
    pub description: Seq<char>,
    pub file_size: u64,
    pub num_files: usize,
    pub real_seeders: usize,
    pub mock_peers: usize,
    pub timeout_secs: u64,
}

impl View for Scenario {
    type V = ScenarioView;

    open spec fn view(&self) -> ScenarioView {
        ScenarioView {
            name: self.name@,
            description: self.description@,
            file_size: self.file_size,
            num_files: self.num_files,
            real_seeders: self.real_seeders,
            mock_peers: self.mock_peers,
            timeout_secs: self.timeout_secs,
        }
    }
}

/// The views of a list of scenarios.
pub open spec fn views(v: Seq<Scenario>) -> Seq<ScenarioView> {
    Seq::new(v.len(), |k: int| v[k]@)
}

impl Scenario {
    /// Real seeders and mock peers together.
    pub fn total_peers(&self) -> (n: usize)
        requires
            self.real_seeders + self.mock_peers <= usize::MAX,
        ensures
            n == self.real_seeders + self.mock_peers,
    {
        self.real_seeders + self.mock_peers
    }

    /// The bytes of all the files of the scenario.
    pub fn total_bytes(&self) -> (n: u64)
        requires
            self.file_size * self.num_files <= u64::MAX,
        ensures
            n == self.file_size * self.num_files,
    {
        self.file_size * self.num_files as u64
    }

    /// How long to wait for the real seeders to check their data: a second
    /// per 50 MB of the scenario's files, and at least three minutes.
    pub fn seeder_verify_timeout_secs(&self) -> (t: u64)
        requires
            self.file_size * self.num_files <= u64::MAX,
        ensures
            t == if self.file_size * self.num_files / (50 * MB) > 180 {
                self.file_size * self.num_files / (50 * MB)
            } else {
                180
            },
    {
        let per = self.total_bytes() / (50 * MB);
        if per > 180 {
            per
        } else {
            180
        }
    }

    /// A copy with the same texts and numbers.
    pub fn duplicate(&self) -> (r: Scenario)
        ensures
            r@ == self@,
    {
        Scenario {
            name: self.name.clone(),
            description: self.description.clone(),
            file_size: self.file_size,
            num_files: self.num_files,
            real_seeders: self.real_seeders,
            mock_peers: self.mock_peers,
            timeout_secs: self.timeout_secs,
        }
    }
}

/// The label of a file size: whole gigabytes as `<n>gb` from 1 GB up, whole
/// megabytes as `<n>mb` below.
pub open spec fn size_label_text(size: u64) -> Seq<char> {
    if size >= GB {
        dec((size / GB) as nat) + seq!['g', 'b']
    } else {
        dec((size / MB) as nat) + seq!['m', 'b']
    }
}

/// The label of a file size.
pub fn size_label(size: u64) -> (s: String)
    ensures
        s@ == size_label_text(size),
{
    let mut s = String::new();
    if size >= GB {
        append_num(&mut s, size / GB);
        push_char(&mut s, 'g');
        push_char(&mut s, 'b');
    } else {
        append_num(&mut s, size / MB);
        push_char(&mut s, 'm');
        push_char(&mut s, 'b');
    }
    assert(s@ =~= size_label_text(size));
    s
}

// ----- the grid -----

/// The total sizes, in gigabytes.
pub open spec fn sizes_gb() -> Seq<u64> {
    seq![2, 4, 6, 8, 10, 12, 14, 16, 18, 20]
}

/// The file counts.
pub open spec fn file_counts() -> Seq<usize> {
    seq![1, 10, 50, 100]
}

/// The peer setups: real seeders, mock peers, and the label.
pub open spec fn peer_setups() -> Seq<(usize, usize, Seq<char>)> {
    seq![
        (3usize, 0usize, "3p"@),
        (10usize, 0usize, "10p"@),
        (0usize, 50usize, "50p"@),
        (0usize, 100usize, "100p"@),
        (0usize, 250usize, "250p"@),
        (0usize, 500usize, "500p"@),
        (0usize, 1000usize, "1000p"@),
    ]
}

/// The scenario of one point of the grid: `total_gb` spread over `nf` files,
/// with a peer setup. Its timeout is 120 s per gigabyte, at least 300 s.
pub open spec fn grid_scenario(total_gb: u64, nf: usize, peer: (usize, usize, Seq<char>)) -> ScenarioView {
    let per_file = (total_gb * GB) / (nf as int);
    ScenarioView {
        name: "sz"@ + dec(total_gb as nat) + "g_f"@ + dec(nf as nat) + "_"@ + peer.2,
        description: dec(total_gb as nat) + " GB total, "@ + dec(nf as nat) + " file(s) x "@ + dec(
            (per_file / (MB as int)) as nat,
        ) + " MB, "@ + dec((peer.0 + peer.1) as nat) + " peers"@,
        file_size: per_file as u64,
        num_files: nf,
        real_seeders: peer.0,
        mock_peers: peer.1,
        timeout_secs: (if total_gb * 120 > 300 { total_gb * 120 } else { 300 }) as u64,
    }
}

/// Every scenario of the grid: sizes outermost, then file counts, then peer
/// setups. Every point gives files of at least a megabyte, so none is left out.
pub open spec fn all_scenarios() -> Seq<ScenarioView> {
    Seq::new(280, |k: int| grid_scenario(sizes_gb()[k / 28], file_counts()[(k / 7) % 4], peer_setups()[k % 7]))
}

proof fn lemma_grid_index(i: int, j: int, k: int)
    requires
        0 <= i < 10,
        0 <= j < 4,
        0 <= k < 7,
    ensures
        (i * 28 + j * 7 + k) / 28 == i,
        ((i * 28 + j * 7 + k) / 7) % 4 == j,
        (i * 28 + j * 7 + k) % 7 == k,
        0 <= i * 28 + j * 7 + k < 280,
{
    assert((i * 28 + j * 7 + k) / 28 == i) by (nonlinear_arith)
        requires 0 <= i < 10, 0 <= j < 4, 0 <= k < 7;
    assert((i * 28 + j * 7 + k) / 7 == i * 4 + j) by (nonlinear_arith)
        requires 0 <= i < 10, 0 <= j < 4, 0 <= k < 7;
    assert((i * 4 + j) % 4 == j) by (nonlinear_arith)
        requires 0 <= j < 4, 0 <= i;
    assert((i * 28 + j * 7 + k) % 7 == k) by (nonlinear_arith)
        requires 0 <= i < 10, 0 <= j < 4, 0 <= k < 7;
    assert(0 <= i * 28 + j * 7 + k < 280) by (nonlinear_arith)
        requires 0 <= i < 10, 0 <= j < 4, 0 <= k < 7;
}

fn make_scenario(total_gb: u64, nf: usize, real_s: usize, mock_p: usize, peer_label: &str) -> (s: Scenario)
    requires
        1 <= total_gb <= 20,
        1 <= nf <= 100,
        real_s <= 10,
        mock_p <= 1000,
    ensures
        s@ == grid_scenario(total_gb, nf, (real_s, mock_p, peer_label@)),
{
    let per_file = (total_gb * GB) / nf as u64;
    let total_peers = real_s + mock_p;
    let mut name = String::new();
    append_str(&mut name, "sz");
    append_num(&mut name, total_gb);
    append_str(&mut name, "g_f");
    append_num(&mut name, nf as u64);
    append_str(&mut name, "_");
    append_str(&mut name, peer_label);
    let mut desc = String::new();
    append_num(&mut desc, total_gb);
    append_str(&mut desc, " GB total, ");
    append_num(&mut desc, nf as u64);
    append_str(&mut desc, " file(s) x ");
    append_num(&mut desc, per_file / MB);
    append_str(&mut desc, " MB, ");
    append_num(&mut desc, total_peers as u64);
    append_str(&mut desc, " peers");
    let timeout = if total_gb * 120 > 300 { total_gb * 120 } else { 300 };
    Scenario {
        name,
        description: desc,
        file_size: per_file,
        num_files: nf,
        real_seeders: real_s,
        mock_peers: mock_p,
        timeout_secs: timeout,
    }
}

/// Every scenario of the grid.
pub fn generate_all() -> (v: Vec<Scenario>)
    ensures
        views(v@) == all_scenarios(),
{
    let sizes: [u64; 10] = [2, 4, 6, 8, 10, 12, 14, 16, 18, 20];
    let counts: [usize; 4] = [1, 10, 50, 100];
    let peers: [(usize, usize, &str); 7] = [
        (3, 0, "3p"),
        (10, 0, "10p"),
        (0, 50, "50p"),
        (0, 100, "100p"),
        (0, 250, "250p"),
        (0, 500, "500p"),
        (0, 1000, "1000p"),
    ];
    proof {
        assert(sizes@ =~= sizes_gb());
        assert(counts@ =~= file_counts());
        assert(peers@.len() == 7);
    }
    let mut scenarios: Vec<Scenario> = Vec::new();
    let mut i: usize = 0;
    while i < 10
        invariant
            0 <= i <= 10,
            sizes@ == sizes_gb(),
            counts@ == file_counts(),
            forall|k: int| 0 <= k < 7 ==> (#[trigger] peers@[k]).0 == peer_setups()[k].0
                && peers@[k].1 == peer_setups()[k].1 && peers@[k].2@ == peer_setups()[k].2,
            peers@.len() == 7,
            scenarios@.len() == i * 28,
            views(scenarios@) == all_scenarios().take(i * 28),
        decreases 10 - i,
    {
        let total_gb = sizes[i];
        let mut j: usize = 0;
        while j < 4
            invariant
                0 <= i < 10,
                0 <= j <= 4,
                total_gb == sizes_gb()[i as int],
                counts@ == file_counts(),
                forall|k: int| 0 <= k < 7 ==> (#[trigger] peers@[k]).0 == peer_setups()[k].0
                    && peers@[k].1 == peer_setups()[k].1 && peers@[k].2@ == peer_setups()[k].2,
                peers@.len() == 7,
                scenarios@.len() == i * 28 + j * 7,
                views(scenarios@) == all_scenarios().take(i * 28 + j * 7),
            decreases 4 - j,
        {
            let nf = counts[j];
            let per_file = (total_gb * GB) / nf as u64;
            assert(per_file >= MB) by (nonlinear_arith)
                requires
                    2 <= total_gb <= 20,
                    1 <= nf <= 100,
                    per_file == (total_gb * 1073741824) / (nf as int),
                    MB == 1048576,
            ;
            if per_file < MB {
                j = j + 1;
                continue;
            }
            let mut k: usize = 0;
            while k < 7
                invariant
                    0 <= i < 10,
                    0 <= j < 4,
                    0 <= k <= 7,
                    total_gb == sizes_gb()[i as int],
                    nf == file_counts()[j as int],
                    counts@ == file_counts(),
                    forall|m: int| 0 <= m < 7 ==> (#[trigger] peers@[m]).0 == peer_setups()[m].0
                        && peers@[m].1 == peer_setups()[m].1 && peers@[m].2@ == peer_setups()[m].2,
                    peers@.len() == 7,
                    scenarios@.len() == i * 28 + j * 7 + k,
                    views(scenarios@) == all_scenarios().take(i * 28 + j * 7 + k),
                decreases 7 - k,
            {
                let (real_s, mock_p, label) = peers[k];
                let ghost idx = i * 28 + j * 7 + k;
                proof {
                    lemma_grid_index(i as int, j as int, k as int);
                }
                let sc = make_scenario(total_gb, nf, real_s, mock_p, label);
                let ghost before = scenarios@;
                scenarios.push(sc);
                proof {
                    assert(views(scenarios@) =~= views(before).push(sc@));
                    assert(all_scenarios().take(idx + 1) =~= all_scenarios().take(idx).push(all_scenarios()[idx]));
                }
                k = k + 1;
            }
            j = j + 1;
        }
        i = i + 1;
    }
    assert(all_scenarios().take(280) =~= all_scenarios());
    scenarios
}

// ----- selection -----

/// The first scenario from position `from` on with the given name.
pub open spec fn find_named(all: Seq<ScenarioView>, name: Seq<char>, from: int) -> Option<ScenarioView>
    decreases all.len() - from,
{
    if from < 0 || from >= all.len() {
        None
    } else if all[from].name == name {
        Some(all[from])
    } else {
        find_named(all, name, from + 1)
    }
}

/// For each name in turn, the first scenario with that name, if any.
pub open spec fn picked(all: Seq<ScenarioView>, names: Seq<Seq<char>>) -> Seq<ScenarioView>
    decreases names.len(),
{
    if names.len() == 0 {
        Seq::empty()
    } else {
        let r = picked(all, names.drop_last());
        match find_named(all, names.last(), 0) {
            Some(s) => r.push(s),
            None => r,
        }
    }
}

/// The texts of a list of names.
pub open spec fn name_views(names: Seq<&str>) -> Seq<Seq<char>> {
    Seq::new(names.len(), |k: int| names[k]@)
}

fn find_scenario(all: &[Scenario], name: &str) -> (r: Option<usize>)
    ensures
        match r {
            Some(i) => i < all@.len() && find_named(views(all@), name@, 0) == Some(all@[i as int]@),
            None => find_named(views(all@), name@, 0) is None,
        },
{
    let ghost vs = views(all@);
    let mut i: usize = 0;
    while i < all.len()
        invariant
            0 <= i <= all@.len(),
            vs == views(all@),
            find_named(vs, name@, 0) == find_named(vs, name@, i as int),
        decreases all@.len() - i,
    {
        if str_eq(all[i].name.as_str(), name) {
            return Some(i);
        }
        i = i + 1;
    }
    None
}

/// The first scenario of each name, in the order of the names.
pub fn pick(all: &[Scenario], names: &[&str]) -> (v: Vec<Scenario>)
    ensures
        views(v@) == picked(views(all@), name_views(names@)),
{
    let mut out: Vec<Scenario> = Vec::new();
    let mut k: usize = 0;
    while k < names.len()
        invariant
            0 <= k <= names@.len(),
            views(out@) == picked(views(all@), name_views(names@).take(k as int)),
        decreases names@.len() - k,
    {
        let ghost before = out@;
        proof {
            assert(name_views(names@).take(k + 1).drop_last() =~= name_views(names@).take(k as int));
            assert(name_views(names@).take(k + 1).last() == names@[k as int]@);
        }
        match find_scenario(all, names[k]) {
            Some(i) => {
                out.push(all[i].duplicate());
                assert(views(out@) =~= views(before).push(all@[i as int]@));
            },
            None => {},
        }
        k = k + 1;
    }
    assert(name_views(names@).take(k as int) =~= name_views(names@));
    out
}

/// The scenarios of `all`, in order, that satisfy `p`.
pub open spec fn keep_where(all: Seq<ScenarioView>, p: spec_fn(ScenarioView) -> bool) -> Seq<ScenarioView>
    decreases all.len(),
{
    if all.len() == 0 {
        Seq::empty()
    } else {
        let r = keep_where(all.drop_last(), p);
        if p(all.last()) {
            r.push(all.last())
        } else {
            r
        }
    }
}

/// `s` split at each `sep`, as `str::split` does: an empty text gives one
/// empty piece, and a separator at the end gives an empty last piece.
pub open spec fn split_on(s: Seq<char>, sep: char) -> Seq<Seq<char>>
    decreases s.len(),
{
    if s.len() == 0 {
        seq![Seq::empty()]
    } else {
        let r = split_on(s.drop_last(), sep);
        if s.last() == sep {
            r.push(Seq::empty())
        } else {
            r.update(r.len() - 1, r.last().push(s.last()))
        }
    }
}

proof fn lemma_split_nonempty(s: Seq<char>, sep: char)
    ensures
        split_on(s, sep).len() >= 1,
    decreases s.len(),
{
    if s.len() > 0 {
        lemma_split_nonempty(s.drop_last(), sep);
    }
}

/// The pieces of `s` between commas, each trimmed.
fn split_commas_trimmed<'a>(s: &'a str) -> (v: Vec<&'a str>)
    ensures
        v@.len() == split_on(s@, ',').len(),
        forall|k: int| 0 <= k < v@.len() ==> (#[trigger] v@[k])@ == crate::text::trimmed(split_on(s@, ',')[k]),
{
    let n = s.unicode_len();
    let mut out: Vec<&'a str> = Vec::new();
    let mut start: usize = 0;
    let mut i: usize = 0;
    while i < n
        invariant
            0 <= start <= i <= n,
            n == s@.len(),
            split_on(s@.take(i as int), ',').len() == out@.len() + 1,
            split_on(s@.take(i as int), ',').last() == s@.subrange(start as int, i as int),
            forall|k: int| 0 <= k < out@.len() ==> (#[trigger] out@[k])@ == crate::text::trimmed(
                split_on(s@.take(i as int), ',')[k],
            ),
        decreases n - i,
    {
        let c = s.get_char(i);
        let ghost prev = split_on(s@.take(i as int), ',');
        proof {
            assert(s@.take(i + 1).drop_last() =~= s@.take(i as int));
            assert(s@.take(i + 1).last() == c);
        }
        if c == ',' {
            let piece = s.substring_char(start, i);
            out.push(trim(piece));
            start = i + 1;
            proof {
                assert(s@.subrange(start as int, (i + 1) as int) =~= Seq::<char>::empty());
            }
        } else {
            proof {
                lemma_split_nonempty(s@.take(i as int), ',');
                assert(s@.subrange(start as int, (i + 1) as int) =~= s@.subrange(start as int, i as int).push(c));
            }
        }
        i = i + 1;
    }
    let piece = s.substring_char(start, n);
    out.push(trim(piece));
    assert(s@.take(n as int) =~= s@);
    out
}

/// Whether `name` is one of `names`.
fn contains_name(names: &[&str], name: &str) -> (r: bool)
    ensures
        r == exists|k: int| 0 <= k < names@.len() && (#[trigger] names@[k])@ == name@,
{
    let mut k: usize = 0;
    while k < names.len()
        invariant
            0 <= k <= names@.len(),
            forall|m: int| 0 <= m < k ==> (#[trigger] names@[m])@ != name@,
        decreases names@.len() - k,
    {
        if str_eq(names[k], name) {
            return true;
        }
        k = k + 1;
    }
    false
}

/// Whether `s` starts with `prefix`.
pub fn starts_with(s: &str, prefix: &str) -> (r: bool)
    ensures
        r == prefix@.is_prefix_of(s@),
{
    let n = prefix.unicode_len();
    if n > s.unicode_len() {
        return false;
    }
    let mut i: usize = 0;
    while i < n
        invariant
            0 <= i <= n,
            n == prefix@.len(),
            n <= s@.len(),
            forall|k: int| 0 <= k < i ==> prefix@[k] == s@[k],
        decreases n - i,
    {
        if prefix.get_char(i) != s.get_char(i) {
            return false;
        }
        i = i + 1;
    }
    assert(prefix@ =~= s@.take(n as int));
    true
}

/// What a scenario must be for a group.
pub open spec fn in_size_ramp(s: ScenarioView) -> bool {
    s.num_files == 1 && s.real_seeders == 3 && s.mock_peers == 0
}

pub open spec fn in_file_ramp(s: ScenarioView) -> bool {
    "sz10g"@.is_prefix_of(s.name) && s.real_seeders == 3 && s.mock_peers == 0
}

pub open spec fn in_peer_ramp(s: ScenarioView) -> bool {
    "sz10g"@.is_prefix_of(s.name) && s.num_files == 1
}

/// The group `quick`.
pub open spec fn quick_names() -> Seq<Seq<char>> {
    seq!["sz8g_f1_3p"@]
}

/// The group `medium`.
pub open spec fn medium_names() -> Seq<Seq<char>> {
    seq!["sz8g_f1_3p"@, "sz16g_f1_3p"@, "sz8g_f10_3p"@, "sz8g_f100_3p"@, "sz8g_f1_100p"@, "sz8g_f1_500p"@]
}

/// The scenarios a lowercased, trimmed selector names: a group (`all`,
/// `quick`, `medium`, `size_ramp`, `file_ramp`, `peer_ramp`), or else every
/// scenario whose name is one of the comma-separated, trimmed names.
pub open spec fn selection(sel: Seq<char>, all: Seq<ScenarioView>) -> Seq<ScenarioView> {
    if sel == "all"@ {
        all
    } else if sel == "quick"@ {
        picked(all, quick_names())
    } else if sel == "medium"@ {
        picked(all, medium_names())
    } else if sel == "size_ramp"@ {
        keep_where(all, |s: ScenarioView| in_size_ramp(s))
    } else if sel == "file_ramp"@ {
        keep_where(all, |s: ScenarioView| in_file_ramp(s))
    } else if sel == "peer_ramp"@ {
        keep_where(all, |s: ScenarioView| in_peer_ramp(s))
    } else {
        let names = split_on(sel, ',');
        keep_where(
            all,
            |s: ScenarioView| exists|k: int| 0 <= k < names.len() && crate::text::trimmed(#[trigger] names[k]) == s.name,
        )
    }
}

/// Which of three filters to apply.
enum Ramp {
    Size,
    File,
    Peer,
}

spec fn ramp_pred(r: Ramp) -> spec_fn(ScenarioView) -> bool {
    match r {
        Ramp::Size => |s: ScenarioView| in_size_ramp(s),
        Ramp::File => |s: ScenarioView| in_file_ramp(s),
        Ramp::Peer => |s: ScenarioView| in_peer_ramp(s),
    }
}

fn ramp_member(r: &Ramp, s: &Scenario) -> (b: bool)
    ensures
        b == (ramp_pred(*r))(s@),
{
    match r {
        Ramp::Size => s.num_files == 1 && s.real_seeders == 3 && s.mock_peers == 0,
        Ramp::File => starts_with(s.name.as_str(), "sz10g") && s.real_seeders == 3 && s.mock_peers == 0,
        Ramp::Peer => starts_with(s.name.as_str(), "sz10g") && s.num_files == 1,
    }
}

fn filter_ramp(all: &[Scenario], r: Ramp) -> (v: Vec<Scenario>)
    ensures
        views(v@) == keep_where(views(all@), ramp_pred(r)),
{
    let mut out: Vec<Scenario> = Vec::new();
    let mut k: usize = 0;
    while k < all.len()
        invariant
            0 <= k <= all@.len(),
            views(out@) == keep_where(views(all@).take(k as int), ramp_pred(r)),
        decreases all@.len() - k,
    {
        let ghost before = out@;
        proof {
            assert(views(all@).take(k + 1).drop_last() =~= views(all@).take(k as int));
            assert(views(all@).take(k + 1).last() == all@[k as int]@);
        }
        if ramp_member(&r, &all[k]) {
            out.push(all[k].duplicate());
            assert(views(out@) =~= views(before).push(all@[k as int]@));
        }
        k = k + 1;
    }
    assert(views(all@).take(k as int) =~= views(all@));
    out
}

fn filter_named(all: &[Scenario], names: &[&str]) -> (v: Vec<Scenario>)
    ensures
        views(v@) == keep_where(
            views(all@),
            |s: ScenarioView| exists|k: int| 0 <= k < names@.len() && (#[trigger] names@[k])@ == s.name,
        ),
{
    let ghost p = |s: ScenarioView| exists|k: int| 0 <= k < names@.len() && (#[trigger] names@[k])@ == s.name;
    let mut out: Vec<Scenario> = Vec::new();
    let mut k: usize = 0;
    while k < all.len()
        invariant
            0 <= k <= all@.len(),
            p == (|s: ScenarioView| exists|m: int| 0 <= m < names@.len() && (#[trigger] names@[m])@ == s.name),
            views(out@) == keep_where(views(all@).take(k as int), p),
        decreases all@.len() - k,
    {
        let ghost before = out@;
        proof {
            assert(views(all@).take(k + 1).drop_last() =~= views(all@).take(k as int));
            assert(views(all@).take(k + 1).last() == all@[k as int]@);
        }
        if contains_name(names, all[k].name.as_str()) {
            out.push(all[k].duplicate());
            assert(views(out@) =~= views(before).push(all@[k as int]@));
        }
        k = k + 1;
    }
    assert(views(all@).take(k as int) =~= views(all@));
    out
}

/// The scenarios a selector names; see `selection`.
pub fn resolve_scenarios(selector: &str) -> (v: Vec<Scenario>)
    ensures
        views(v@) == selection(crate::text::lowercase(crate::text::trimmed(selector@)), all_scenarios()),
{
    let sel = to_lowercase(trim(selector));
    select_scenarios(sel.as_str())
}

/// The scenarios a selector, already trimmed and lowercased, names; see
/// `selection`.
pub fn select_scenarios(s: &str) -> (v: Vec<Scenario>)
    ensures
        views(v@) == selection(s@, all_scenarios()),
{
    let all = generate_all();
    if str_eq(s, "all") {
        all
    } else if str_eq(s, "quick") {
        let names: [&str; 1] = ["sz8g_f1_3p"];
        assert(name_views(names@) =~= quick_names());
        pick(all.as_slice(), names.as_slice())
    } else if str_eq(s, "medium") {
        let names: [&str; 6] = [
            "sz8g_f1_3p",
            "sz16g_f1_3p",
            "sz8g_f10_3p",
            "sz8g_f100_3p",
            "sz8g_f1_100p",
            "sz8g_f1_500p",
        ];
        assert(name_views(names@) =~= medium_names());
        pick(all.as_slice(), names.as_slice())
    } else if str_eq(s, "size_ramp") {
        filter_ramp(all.as_slice(), Ramp::Size)
    } else if str_eq(s, "file_ramp") {
        filter_ramp(all.as_slice(), Ramp::File)
    } else if str_eq(s, "peer_ramp") {
        filter_ramp(all.as_slice(), Ramp::Peer)
    } else {
        let names = split_commas_trimmed(s);
        let r = filter_named(all.as_slice(), names.as_slice());
        proof {
            let pieces = split_on(s@, ',');
            let p1 = |sc: ScenarioView| exists|k: int| 0 <= k < names@.len() && (#[trigger] names@[k])@ == sc.name;
            let p2 = |sc: ScenarioView| exists|k: int| 0 <= k < pieces.len() && crate::text::trimmed(#[trigger] pieces[k]) == sc.name;
            assert forall|sc: ScenarioView| #[trigger] p1(sc) == p2(sc) by {
                if p1(sc) {
                    let k = choose|k: int| 0 <= k < names@.len() && (#[trigger] names@[k])@ == sc.name;
                    assert(crate::text::trimmed(pieces[k]) == sc.name);
                }
                if p2(sc) {
                    let k = choose|k: int| 0 <= k < pieces.len() && crate::text::trimmed(#[trigger] pieces[k]) == sc.name;
                    assert(names@[k]@ == sc.name);
                }
            }
            assert(p1 =~= p2);
        }
        r
    }
}

// ----- data and torrent file names -----

/// The piece length for a file of `file_size` bytes: 256 KiB below 128 MB,
/// 512 KiB below 512 MB, 1 MB below 2 GB, 2 MB below 8 GB, 4 MB from there.
pub open spec fn piece_length_for(file_size: u64) -> int {
    if file_size < 128 * MB {
        256 * 1024int
    } else if file_size < 512 * MB {
        512 * 1024int
    } else if file_size < 2 * GB {
        MB as int
    } else if file_size < 8 * GB {
        2 * MB
    } else {
        4 * MB
    }
}

/// The piece length for a file of `file_size` bytes.
pub fn piece_length(file_size: u64) -> (n: u64)
    ensures
        n == piece_length_for(file_size),
{
    if file_size < 128 * MB {
        256 * 1024
    } else if file_size < 512 * MB {
        512 * 1024
    } else if file_size < 2 * GB {
        MB
    } else if file_size < 8 * GB {
        2 * MB
    } else {
        4 * MB
    }
}

/// `n` in decimal, zero-padded on the left to at least three digits.
pub open spec fn dec3(n: nat) -> Seq<char> {
    let d = dec(n);
    if d.len() < 3 {
        Seq::new((3 - d.len()) as nat, |k: int| '0') + d
    } else {
        d
    }
}

fn append_num3(s: &mut String, n: usize)
    ensures
        final(s)@ == old(s)@ + dec3(n as nat),
{
    proof {
        crate::decimal::lemma_digits_of(n as nat);
    }
    if n < 10 {
        push_char(s, '0');
        push_char(s, '0');
        assert(dec(n as nat).len() == 1) by {
            reveal_with_fuel(crate::decimal::digits_of, 2);
        }
    } else if n < 100 {
        push_char(s, '0');
        assert(dec(n as nat).len() == 2) by {
            reveal_with_fuel(crate::decimal::digits_of, 3);
        }
    } else {
        assert(dec(n as nat).len() >= 3) by {
            reveal_with_fuel(crate::decimal::digits_of, 3);
        }
    }
    let ghost mid = s@;
    append_num(s, n as u64);
    assert(s@ =~= old(s)@ + dec3(n as nat));
}

/// `bench_<label>_<idx, three digits>.bin`
pub open spec fn data_file_name(label: Seq<char>, idx: nat) -> Seq<char> {
    "bench_"@ + label + "_"@ + dec3(idx) + ".bin"@
}

/// `bench_<label>_<idx, three digits>.torrent`
pub open spec fn torrent_file_name(label: Seq<char>, idx: nat) -> Seq<char> {
    "bench_"@ + label + "_"@ + dec3(idx) + ".torrent"@
}

/// File name for a given size label and index.
pub fn data_filename(label: &str, idx: usize) -> (s: String)
    ensures
        s@ == data_file_name(label@, idx as nat),
{
    let mut s = String::new();
    append_str(&mut s, "bench_");
    append_str(&mut s, label);
    append_str(&mut s, "_");
    append_num3(&mut s, idx);
    append_str(&mut s, ".bin");
    s
}

/// Torrent file name for a given size label and index.
pub fn torrent_filename(label: &str, idx: usize) -> (s: String)
    ensures
        s@ == torrent_file_name(label@, idx as nat),
{
    let mut s = String::new();
    append_str(&mut s, "bench_");
    append_str(&mut s, label);
    append_str(&mut s, "_");
    append_num3(&mut s, idx);
    append_str(&mut s, ".torrent");
    s
}

/// A path in the file system.
#[verifier::external_type_specification]
#[verifier::external_body]
pub struct ExPathBuf(std::path::PathBuf);

/// What `Path::join` gives for a directory and a file name: a function of the
/// two texts alone.
pub uninterp spec fn joined_path(dir: Seq<char>, name: Seq<char>) -> std::path::PathBuf;

/// `Path::new(dir).join(name)`.
#[verifier::external_body]
fn join_path(dir: &str, name: &str) -> (p: std::path::PathBuf)
    ensures
        p == joined_path(dir@, name@),
{
    std::path::Path::new(dir).join(name)
}

/// The torrent files of a scenario: one per file, in the directory given.
pub fn torrent_paths(sc: &Scenario, torrent_dir: &str) -> (v: Vec<std::path::PathBuf>)
    ensures
        v@.len() == sc.num_files,
        forall|i: int|
            0 <= i < v@.len() ==> #[trigger] v@[i] == joined_path(
                torrent_dir@,
                torrent_file_name(size_label_text(sc.file_size), i as nat),
            ),
{
    let label = size_label(sc.file_size);
    let mut out: Vec<std::path::PathBuf> = Vec::new();
    let mut i: usize = 0;
    while i < sc.num_files
        invariant
            0 <= i <= sc.num_files,
            label@ == size_label_text(sc.file_size),
            out@.len() == i,
            forall|k: int|
                0 <= k < i ==> #[trigger] out@[k] == joined_path(
                    torrent_dir@,
                    torrent_file_name(size_label_text(sc.file_size), k as nat),
                ),
        decreases sc.num_files - i,
    {
        let name = torrent_filename(label.as_str(), i);
        out.push(join_path(torrent_dir, name.as_str()));
        i = i + 1;
    }
    out
}

// ----- laws -----

/// Every scenario of the grid has files of at least a megabyte and a timeout
/// of at least 300 seconds.
pub proof fn lemma_grid_bounds(k: int)
    requires
        0 <= k < 280,
    ensures
        all_scenarios()[k].file_size >= MB,
        all_scenarios()[k].timeout_secs >= 300,
        all_scenarios()[k].num_files >= 1,
{
    let i = k / 28;
    let j = (k / 7) % 4;
    let total_gb = sizes_gb()[i];
    let nf = file_counts()[j];
    assert(0 <= i < 10);
    assert(0 <= j < 4);
    assert(2 <= total_gb <= 20);
    assert(1 <= nf <= 100);
    assert((total_gb * 1073741824) / (nf as int) >= 1048576) by (nonlinear_arith)
        requires
            2 <= total_gb <= 20,
            1 <= nf <= 100,
    ;
    assert((total_gb * 1073741824) / (nf as int) <= u64::MAX) by (nonlinear_arith)
        requires
            2 <= total_gb <= 20,
            1 <= nf <= 100,
    ;
}

/// The selector `all`, in any case and with surrounding space, names every
/// scenario.
pub proof fn lemma_select_all(all: Seq<ScenarioView>)
    ensures
        selection("all"@, all) == all,
{
}

/// A group of ramps keeps only scenarios of that ramp, in grid order.
pub proof fn lemma_keep_where_members(all: Seq<ScenarioView>, p: spec_fn(ScenarioView) -> bool)
    ensures
        forall|k: int| 0 <= k < keep_where(all, p).len() ==> p(#[trigger] keep_where(all, p)[k]),
        keep_where(all, p).len() <= all.len(),
    decreases all.len(),
{
    if all.len() > 0 {
        lemma_keep_where_members(all.drop_last(), p);
    }
}

/// The bytes of a text of ASCII characters.
pub open spec fn char_bytes(s: Seq<char>) -> Seq<u8> {
    Seq::new(s.len(), |k: int| s[k] as u8)
}

/// Zeros in front do not change the value of a string of digits.
proof fn lemma_leading_zeros(ds: Seq<u8>, z: nat)
    ensures
        crate::decimal::digits_value(Seq::new(z, |k: int| 48u8) + ds) == crate::decimal::digits_value(ds),
    decreases ds.len(), z,
{
    let zs = Seq::new(z, |k: int| 48u8);
    if ds.len() == 0 {
        assert(zs + ds =~= zs);
        if z > 0 {
            assert(zs.drop_last() =~= Seq::new((z - 1) as nat, |k: int| 48u8));
            lemma_leading_zeros(ds, (z - 1) as nat);
            assert(Seq::new((z - 1) as nat, |k: int| 48u8) + ds =~= Seq::new((z - 1) as nat, |k: int| 48u8));
        }
    } else {
        lemma_leading_zeros(ds.drop_last(), z);
        assert((zs + ds).drop_last() =~= zs + ds.drop_last());
    }
}

/// The three-digit text of an index reads back as the index.
proof fn lemma_dec3_value(n: nat)
    ensures
        crate::decimal::digits_value(char_bytes(dec3(n))) == n,
{
    let d = crate::decimal::digits_of(n);
    crate::decimal::lemma_digits_of(n);
    assert(char_bytes(dec(n)) =~= d) by {
        assert forall|k: int| 0 <= k < d.len() implies #[trigger] char_bytes(dec(n))[k] == d[k] by {
            assert(crate::decimal::is_digit(d[k]));
        }
    }
    if d.len() < 3 {
        let z = (3 - d.len()) as nat;
        assert(char_bytes(dec3(n)) =~= Seq::new(z, |k: int| 48u8) + d);
        lemma_leading_zeros(d, z);
    }
}

/// Different indices give different three-digit texts.
pub proof fn lemma_dec3_injective(i: nat, j: nat)
    requires
        dec3(i) == dec3(j),
    ensures
        i == j,
{
    lemma_dec3_value(i);
    lemma_dec3_value(j);
}

/// A torrent file is named as its data file, with `.torrent` in place of
/// `.bin`; and different indices give different torrent file names.
pub proof fn lemma_torrent_file_name(label: Seq<char>, i: nat, j: nat)
    ensures
        ({
            let d = data_file_name(label, i);
            torrent_file_name(label, i) == d.take(d.len() - 4) + ".torrent"@
        }),
        data_file_name(label, i).skip(data_file_name(label, i).len() - 4) == ".bin"@,
        i != j ==> torrent_file_name(label, i) != torrent_file_name(label, j),
{
    reveal_strlit(".bin");
    reveal_strlit(".torrent");
    let pre = "bench_"@ + label + "_"@;
    let d = data_file_name(label, i);
    assert(d =~= pre + dec3(i) + ".bin"@);
    assert(d.take(d.len() - 4) =~= pre + dec3(i));
    assert(d.skip(d.len() - 4) =~= ".bin"@);
    if i != j && torrent_file_name(label, i) == torrent_file_name(label, j) {
        let ti = torrent_file_name(label, i);
        assert(ti =~= pre + dec3(i) + ".torrent"@);
        assert(torrent_file_name(label, j) =~= pre + dec3(j) + ".torrent"@);
        assert(dec3(i).len() == dec3(j).len());
        assert(dec3(i) =~= ti.subrange(pre.len() as int, (pre.len() + dec3(i).len()) as int));
        assert(dec3(j) =~= ti.subrange(pre.len() as int, (pre.len() + dec3(j).len()) as int));
        lemma_dec3_injective(i, j);
    }
}

/// A character is a decimal digit.
pub open spec fn is_digit_char(c: char) -> bool {
    48 <= (c as u32) <= 57
}

/// The decimal text of a number is made of digits and reads back as it.
proof fn lemma_dec_text(n: nat)
    ensures
        dec(n).len() >= 1,
        forall|k: int| 0 <= k < dec(n).len() ==> is_digit_char(#[trigger] dec(n)[k]),
        crate::decimal::digits_value(char_bytes(dec(n))) == n,
{
    let d = crate::decimal::digits_of(n);
    crate::decimal::lemma_digits_of(n);
    assert forall|k: int| 0 <= k < dec(n).len() implies is_digit_char(#[trigger] dec(n)[k]) by {
        assert(crate::decimal::is_digit(d[k]));
    }
    assert(char_bytes(dec(n)) =~= d) by {
        assert forall|k: int| 0 <= k < d.len() implies #[trigger] char_bytes(dec(n))[k] == d[k] by {
            assert(crate::decimal::is_digit(d[k]));
        }
    }
}

/// Two texts that each start with digits followed by the same non-digit
/// character are equal only when the digits and what follows are.
proof fn lemma_split_after_digits(a: Seq<char>, x: Seq<char>, b: Seq<char>, y: Seq<char>, c: char)
    requires
        forall|k: int| 0 <= k < a.len() ==> is_digit_char(#[trigger] a[k]),
        forall|k: int| 0 <= k < b.len() ==> is_digit_char(#[trigger] b[k]),
        !is_digit_char(c),
        a + seq![c] + x == b + seq![c] + y,
    ensures
        a == b,
        x == y,
{
    let s = a + seq![c] + x;
    let t = b + seq![c] + y;
    if a.len() < b.len() {
        assert(s[a.len() as int] == c);
        assert(t[a.len() as int] == b[a.len() as int]);
    } else if b.len() < a.len() {
        assert(t[b.len() as int] == c);
        assert(s[b.len() as int] == a[b.len() as int]);
    }
    assert(a =~= s.take(a.len() as int));
    assert(b =~= t.take(b.len() as int));
    assert(x =~= s.skip(a.len() + 1int));
    assert(y =~= t.skip(b.len() + 1int));
}

/// The peer setups' labels are distinct.
proof fn lemma_peer_labels(k1: int, k2: int)
    requires
        0 <= k1 < 7,
        0 <= k2 < 7,
        peer_setups()[k1].2 == peer_setups()[k2].2,
    ensures
        k1 == k2,
{
    reveal_strlit("3p");
    reveal_strlit("10p");
    reveal_strlit("50p");
    reveal_strlit("100p");
    reveal_strlit("250p");
    reveal_strlit("500p");
    reveal_strlit("1000p");
    let l1 = peer_setups()[k1].2;
    let l2 = peer_setups()[k2].2;
    assert(l1.len() == l2.len() && l1[0] == l2[0] && l1[1] == l2[1]);
}

/// The name of a grid point.
pub open spec fn grid_name(g: nat, f: nat, label: Seq<char>) -> Seq<char> {
    "sz"@ + dec(g) + "g_f"@ + dec(f) + "_"@ + label
}

/// A grid name tells its size, file count and peer label.
proof fn lemma_grid_name_parts(g1: nat, f1: nat, l1: Seq<char>, g2: nat, f2: nat, l2: Seq<char>)
    requires
        grid_name(g1, f1, l1) == grid_name(g2, f2, l2),
    ensures
        g1 == g2,
        f1 == f2,
        l1 == l2,
{
    reveal_strlit("sz");
    reveal_strlit("g_f");
    reveal_strlit("_");
    lemma_dec_text(g1);
    lemma_dec_text(g2);
    lemma_dec_text(f1);
    lemma_dec_text(f2);
    let na = grid_name(g1, f1, l1);
    let nb = grid_name(g2, f2, l2);
    let xa = seq!['_', 'f'] + dec(f1) + seq!['_'] + l1;
    let xb = seq!['_', 'f'] + dec(f2) + seq!['_'] + l2;
    assert(na.skip(2) =~= dec(g1) + seq!['g'] + xa);
    assert(nb.skip(2) =~= dec(g2) + seq!['g'] + xb);
    lemma_split_after_digits(dec(g1), xa, dec(g2), xb, 'g');
    assert(xa.skip(2) =~= dec(f1) + seq!['_'] + l1);
    assert(xb.skip(2) =~= dec(f2) + seq!['_'] + l2);
    lemma_split_after_digits(dec(f1), l1, dec(f2), l2, '_');
}

proof fn lemma_sizes_distinct(i1: int, i2: int)
    requires
        0 <= i1 < 10,
        0 <= i2 < 10,
        sizes_gb()[i1] == sizes_gb()[i2],
    ensures
        i1 == i2,
{
    assert forall|i: int| 0 <= i < 10 implies #[trigger] sizes_gb()[i] == 2 * i + 2 by {
        if i == 0 {} else if i == 1 {} else if i == 2 {} else if i == 3 {} else if i == 4 {}
        else if i == 5 {} else if i == 6 {} else if i == 7 {} else if i == 8 {} else {}
    }
}

proof fn lemma_file_counts_distinct(j1: int, j2: int)
    requires
        0 <= j1 < 4,
        0 <= j2 < 4,
        file_counts()[j1] == file_counts()[j2],
    ensures
        j1 == j2,
{
    assert(file_counts()[0] == 1 && file_counts()[1] == 10 && file_counts()[2] == 50 && file_counts()[3] == 100);
}

/// Each point of the grid has its own name.
pub proof fn lemma_grid_names_distinct(a: int, b: int)
    requires
        0 <= a < 280,
        0 <= b < 280,
        a != b,
    ensures
        all_scenarios()[a].name != all_scenarios()[b].name,
{
    let ia = a / 28;
    let ja = (a / 7) % 4;
    let ka = a % 7;
    let ib = b / 28;
    let jb = (b / 7) % 4;
    let kb = b % 7;
    assert(0 <= ia < 10 && 0 <= ja < 4 && 0 <= ka < 7 && a == ia * 28 + ja * 7 + ka) by (nonlinear_arith)
        requires 0 <= a < 280, ia == a / 28, ja == (a / 7) % 4, ka == a % 7;
    assert(0 <= ib < 10 && 0 <= jb < 4 && 0 <= kb < 7 && b == ib * 28 + jb * 7 + kb) by (nonlinear_arith)
        requires 0 <= b < 280, ib == b / 28, jb == (b / 7) % 4, kb == b % 7;
    assert(all_scenarios()[a].name == grid_name(sizes_gb()[ia] as nat, file_counts()[ja] as nat, peer_setups()[ka].2));
    assert(all_scenarios()[b].name == grid_name(sizes_gb()[ib] as nat, file_counts()[jb] as nat, peer_setups()[kb].2));
    if all_scenarios()[a].name == all_scenarios()[b].name {
        lemma_grid_name_parts(
            sizes_gb()[ia] as nat, file_counts()[ja] as nat, peer_setups()[ka].2,
            sizes_gb()[ib] as nat, file_counts()[jb] as nat, peer_setups()[kb].2,
        );
        lemma_sizes_distinct(ia, ib);
        lemma_file_counts_distinct(ja, jb);
        lemma_peer_labels(ka, kb);
    }
}

/// No two scenarios of the list share a name.
pub open spec fn names_distinct(s: Seq<ScenarioView>) -> bool {
    forall|i: int, j: int| 0 <= i < s.len() && 0 <= j < s.len() && i != j ==> s[i].name != s[j].name
}

/// Every scenario kept is one of the list.
proof fn lemma_keep_where_from(all: Seq<ScenarioView>, p: spec_fn(ScenarioView) -> bool)
    ensures
        forall|k: int| 0 <= k < keep_where(all, p).len() ==> all.contains(#[trigger] keep_where(all, p)[k]),
        names_distinct(all) ==> names_distinct(keep_where(all, p)),
    decreases all.len(),
{
    if all.len() > 0 {
        let pre = all.drop_last();
        lemma_keep_where_from(pre, p);
        let r = keep_where(pre, p);
        let out = keep_where(all, p);
        assert forall|k: int| 0 <= k < out.len() implies all.contains(#[trigger] out[k]) by {
            if k < r.len() {
                assert(out[k] == r[k]);
                let m = choose|m: int| 0 <= m < pre.len() && pre[m] == r[k];
                assert(all[m] == pre[m]);
            } else {
                assert(out[k] == all[all.len() - 1]);
            }
        }
        if names_distinct(all) {
            assert(names_distinct(pre)) by {
                assert forall|i: int, j: int| 0 <= i < pre.len() && 0 <= j < pre.len() && i != j implies pre[i].name != pre[j].name by {
                    assert(pre[i] == all[i] && pre[j] == all[j]);
                }
            }
            if p(all.last()) {
                assert forall|i: int, j: int| 0 <= i < out.len() && 0 <= j < out.len() && i != j implies out[i].name != out[j].name by {
                    if i < r.len() && j < r.len() {
                        assert(out[i] == r[i] && out[j] == r[j]);
                    } else if i < r.len() {
                        let m = choose|m: int| 0 <= m < pre.len() && pre[m] == r[i];
                        assert(out[i] == r[i]);
                        assert(all[m] == pre[m]);
                        assert(all[all.len() - 1].name != all[m].name);
                    } else if j < r.len() {
                        let m = choose|m: int| 0 <= m < pre.len() && pre[m] == r[j];
                        assert(out[j] == r[j]);
                        assert(all[m] == pre[m]);
                        assert(all[all.len() - 1].name != all[m].name);
                    }
                }
            }
        }
    }
}

/// A scenario found by name has that name.
proof fn lemma_find_named(all: Seq<ScenarioView>, name: Seq<char>, from: int)
    ensures
        find_named(all, name, from) matches Some(s) ==> s.name == name && all.contains(s),
    decreases all.len() - from,
{
    if 0 <= from < all.len() {
        if all[from].name != name {
            lemma_find_named(all, name, from + 1);
        }
    }
}

/// The scenarios picked for a list of distinct names have distinct names,
/// each one of the list.
proof fn lemma_picked_names(all: Seq<ScenarioView>, names: Seq<Seq<char>>)
    requires
        forall|i: int, j: int| 0 <= i < names.len() && 0 <= j < names.len() && i != j ==> names[i] != names[j],
    ensures
        forall|k: int| 0 <= k < picked(all, names).len() ==> names.contains(#[trigger] picked(all, names)[k].name),
        forall|k: int| 0 <= k < picked(all, names).len() ==> all.contains(#[trigger] picked(all, names)[k]),
        names_distinct(picked(all, names)),
    decreases names.len(),
{
    if names.len() > 0 {
        let pre = names.drop_last();
        lemma_picked_names(all, pre);
        lemma_find_named(all, names.last(), 0);
        let r = picked(all, pre);
        let out = picked(all, names);
        assert forall|k: int| 0 <= k < r.len() implies names.contains(#[trigger] r[k].name) && r[k].name != names.last() by {
            let m = choose|m: int| 0 <= m < pre.len() && pre[m] == r[k].name;
            assert(names[m] == pre[m]);
            assert(names[names.len() - 1] == names.last());
        }
        assert forall|k: int| 0 <= k < out.len() implies names.contains(#[trigger] out[k].name) by {
            if k < r.len() {
                assert(out[k] == r[k]);
            } else {
                assert(names[names.len() - 1] == names.last());
            }
        }
        assert forall|k: int| 0 <= k < out.len() implies all.contains(#[trigger] out[k]) by {
            if k < r.len() {
                assert(out[k] == r[k]);
            }
        }
        assert forall|i: int, j: int| 0 <= i < out.len() && 0 <= j < out.len() && i != j implies out[i].name != out[j].name by {
            if i < r.len() && j < r.len() {
                assert(out[i] == r[i] && out[j] == r[j]);
            } else if i < r.len() {
                assert(out[i] == r[i]);
            } else if j < r.len() {
                assert(out[j] == r[j]);
            }
        }
    }
}

/// Whatever the selector, no scenario is listed twice: the names in a
/// selection are pairwise distinct, and each scenario selected is, field by
/// field, one of the full grid.
pub proof fn lemma_selection_names_distinct(sel: Seq<char>)
    ensures
        names_distinct(selection(sel, all_scenarios())),
        forall|k: int| 0 <= k < selection(sel, all_scenarios()).len() ==> all_scenarios().contains(
            #[trigger] selection(sel, all_scenarios())[k],
        ),
{
    let all = all_scenarios();
    assert(names_distinct(all)) by {
        assert forall|i: int, j: int| 0 <= i < all.len() && 0 <= j < all.len() && i != j implies all[i].name != all[j].name by {
            lemma_grid_names_distinct(i, j);
        }
    }
    reveal_strlit("all");
    reveal_strlit("quick");
    reveal_strlit("medium");
    reveal_strlit("sz8g_f1_3p");
    reveal_strlit("sz16g_f1_3p");
    reveal_strlit("sz8g_f10_3p");
    reveal_strlit("sz8g_f100_3p");
    reveal_strlit("sz8g_f1_100p");
    reveal_strlit("sz8g_f1_500p");
    if sel == "all"@ {
        assert forall|k: int| 0 <= k < all.len() implies all.contains(#[trigger] all[k]) by {}
    } else if sel == "quick"@ {
        lemma_picked_names(all, quick_names());
    } else if sel == "medium"@ {
        let m = medium_names();
        assert forall|i: int, j: int| 0 <= i < m.len() && 0 <= j < m.len() && i != j implies m[i] != m[j] by {
            assert(m[i].len() != m[j].len() || m[i][2] != m[j][2] || m[i][3] != m[j][3] || m[i][6] != m[j][6] || m[i][7] != m[j][7]
                || m[i][8] != m[j][8]);
        }
        lemma_picked_names(all, m);
    } else {
        lemma_keep_where_from(all, |s: ScenarioView| in_size_ramp(s));
        lemma_keep_where_from(all, |s: ScenarioView| in_file_ramp(s));
        lemma_keep_where_from(all, |s: ScenarioView| in_peer_ramp(s));
        let names = split_on(sel, ',');
        lemma_keep_where_from(
            all,
            |s: ScenarioView| exists|k: int| 0 <= k < names.len() && crate::text::trimmed(#[trigger] names[k]) == s.name,
        );
    }
}

} // verus!
