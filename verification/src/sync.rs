//! Reports of a library sync: what each source's refresh came to.
//!
//! Reading the launchers' files, calling the Steam API and writing the caches
//! happen outside the library; each source's outcome comes back here and
//! becomes its report.

use vstd::prelude::*;
use vstd::string::StringExecFns;

verus! {

/// Status of a single sync operation.
pub enum SyncStatus {
    Succeeded,
    Skipped(String),
    Error(String),
}

/// Result of syncing one platform's game library.
pub struct SyncReport {
    pub platform: String,
    pub game_count: usize,
    pub status: SyncStatus,
}

/// What became of one Heroic store's refresh.
pub enum HeroicOutcome {
    /// Its library file does not exist and held no games.
    Missing,
    /// Writing its cache failed, with this error text.
    WriteFailed(String),
    /// Its cache was written with this many games.
    Written(usize),
}

/// What became of the Steam refresh.
pub enum SteamOutcome {
    /// No configuration file was found.
    NoConfig,
    /// The API call failed, with this error text.
    FetchFailed(String),
    /// Writing the cache failed, with this error text.
    WriteFailed(String),
    /// The cache was written with this many games.
    Written(usize),
}

/// A report's status, as mathematical values.
pub enum StatusView {
    Succeeded,
    Skipped(Seq<char>),
    Error(Seq<char>),
}

/// A report, as mathematical values.
pub struct ReportView {
    pub platform: Seq<char>,
    pub game_count: nat,
    pub status: StatusView,
}

impl View for SyncReport {
    type V = ReportView;

    open spec fn view(&self) -> ReportView {
        ReportView {
            platform: self.platform@,
            game_count: self.game_count as nat,
            status: match self.status {
                SyncStatus::Succeeded => StatusView::Succeeded,
                SyncStatus::Skipped(m) => StatusView::Skipped(m@),
                SyncStatus::Error(m) => StatusView::Error(m@),
            },
        }
    }
}

/// The Heroic stores in sync order: platform name and library file name.
pub open spec fn heroic_source(i: int) -> (Seq<char>, Seq<char>) {
    if i == 0 {
        ("epic"@, "legendary_library.json"@)
    } else if i == 1 {
        ("gog"@, "gog_library.json"@)
    } else {
        ("amazon"@, "nile_library.json"@)
    }
}

/// The report for a Heroic store with library file `filename`.
pub open spec fn heroic_report(platform: Seq<char>, filename: Seq<char>, outcome: HeroicOutcome) -> ReportView {
    match outcome {
        HeroicOutcome::Missing => ReportView {
            platform,
            game_count: 0,
            status: StatusView::Skipped(filename + " not found"@),
        },
        HeroicOutcome::WriteFailed(e) => ReportView { platform, game_count: 0, status: StatusView::Error(e@) },
        HeroicOutcome::Written(n) => ReportView { platform, game_count: n as nat, status: StatusView::Succeeded },
    }
}

/// The report for the Steam refresh.
pub open spec fn steam_report(outcome: SteamOutcome) -> ReportView {
    match outcome {
        SteamOutcome::NoConfig => ReportView {
            platform: "steam"@,
            game_count: 0,
            status: StatusView::Skipped("no config found, run `backlog setup` first"@),
        },
        SteamOutcome::FetchFailed(e) => ReportView {
            platform: "steam"@,
            game_count: 0,
            status: StatusView::Error(e@),
        },
        SteamOutcome::WriteFailed(e) => ReportView {
            platform: "steam"@,
            game_count: 0,
            status: StatusView::Error(e@),
        },
        SteamOutcome::Written(n) => ReportView { platform: "steam"@, game_count: n as nat, status: StatusView::Succeeded },
    }
}

/// The Heroic stores in sync order: platform name, then the library file
/// under Heroic's store cache.
pub fn heroic_sources() -> (r: Vec<(&'static str, &'static str)>)
    ensures
        r@.len() == 3,
        forall|i: int| 0 <= i < 3 ==> ((#[trigger] r@[i]).0@, r@[i].1@) == heroic_source(i),
{
    let mut r: Vec<(&'static str, &'static str)> = Vec::new();
    r.push(("epic", "legendary_library.json"));
    r.push(("gog", "gog_library.json"));
    r.push(("amazon", "nile_library.json"));
    r
}

/// Whether a store is reported as skipped instead of written: it gave no
/// games and its library file does not exist. A file that exists but lists
/// nothing still gets an empty cache.
pub fn source_missing(game_count: usize, file_exists: bool) -> (r: bool)
    ensures
        r == (game_count == 0 && !file_exists),
{
    game_count == 0 && !file_exists
}

/// The report for one Heroic store.
fn report_heroic(platform: &str, filename: &str, outcome: HeroicOutcome) -> (r: SyncReport)
    ensures
        r@ == heroic_report(platform@, filename@, outcome),
{
    let p = String::from_str(platform);
    match outcome {
        HeroicOutcome::Missing => {
            let mut m = String::from_str(filename);
            m.append(" not found");
            SyncReport { platform: p, game_count: 0, status: SyncStatus::Skipped(m) }
        },
        HeroicOutcome::WriteFailed(e) => SyncReport { platform: p, game_count: 0, status: SyncStatus::Error(e) },
        HeroicOutcome::Written(n) => SyncReport { platform: p, game_count: n, status: SyncStatus::Succeeded },
    }
}

/// The reports of the three Heroic-managed stores (Epic, GOG, Amazon), in
/// that order, from what became of each one's refresh.
///
/// A store is `Skipped` only when its library file does not exist and gave
/// no games; a failed cache write is an `Error` with no games.
pub fn sync_heroic(epic: HeroicOutcome, gog: HeroicOutcome, amazon: HeroicOutcome) -> (r: Vec<SyncReport>)
    ensures
        r@.len() == 3,
        r@[0]@ == heroic_report(heroic_source(0).0, heroic_source(0).1, epic),
        r@[1]@ == heroic_report(heroic_source(1).0, heroic_source(1).1, gog),
        r@[2]@ == heroic_report(heroic_source(2).0, heroic_source(2).1, amazon),
{
    let sources = heroic_sources();
    let mut r: Vec<SyncReport> = Vec::new();
    r.push(report_heroic(sources[0].0, sources[0].1, epic));
    r.push(report_heroic(sources[1].0, sources[1].1, gog));
    r.push(report_heroic(sources[2].0, sources[2].1, amazon));
    r
}

/// The report of the Steam refresh: `Skipped` without a configuration,
/// `Error` when the API call or the cache write failed.
pub fn sync_steam(outcome: SteamOutcome) -> (r: SyncReport)
    ensures
        r@ == steam_report(outcome),
{
    let p = String::from_str("steam");
    match outcome {
        SteamOutcome::NoConfig => SyncReport {
            platform: p,
            game_count: 0,
            status: SyncStatus::Skipped(String::from_str("no config found, run `backlog setup` first")),
        },
        SteamOutcome::FetchFailed(e) => SyncReport { platform: p, game_count: 0, status: SyncStatus::Error(e) },
        SteamOutcome::WriteFailed(e) => SyncReport { platform: p, game_count: 0, status: SyncStatus::Error(e) },
        SteamOutcome::Written(n) => SyncReport { platform: p, game_count: n, status: SyncStatus::Succeeded },
    }
}

/// All sources' reports: the Heroic stores followed by Steam.
pub fn sync_all(heroic: Vec<SyncReport>, steam: SyncReport) -> (r: Vec<SyncReport>)
    ensures
        r@ == heroic@.push(steam),
{
    let mut r = heroic;
    r.push(steam);
    r
}

} // verus!
