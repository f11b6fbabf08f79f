use vstd::prelude::*;
use vstd::string::StringExecFns;

verus! {

/// The spreadsheet the game data is kept in.
pub const SHEET_ID: &'static str = "1Kc9aME3xlUC_vV5dFRe457OchqUOrwuiX_pQykjCF68";

/// The folder the sheet exports are saved to.
pub const SHEET_FOLDER: &'static str = "SheetData";

/// The tab of the spreadsheet that lists the parts.
pub const PARTS_V2_SHEET_GID: &'static str = "319672878";

/// The tab of the spreadsheet that lists the cores.
pub const CORES_SHEET_GID: &'static str = "911413911";

/// Where the parts tab is saved.
pub const PARTS_V2_SHEET: &'static str = "SheetData/parts2.csv";

/// Where the cores tab is saved.
pub const CORES_SHEET: &'static str = "SheetData/cores.csv";

/// Where the generated database is written.
pub const OUTPUT_FILE: &'static str = "Data/FullData.sqlite3";

/// The address of the CSV export of one tab of a spreadsheet.
pub open spec fn csv_export_url(sheet_id: Seq<char>, gid: Seq<char>) -> Seq<char> {
    "https://docs.google.com/spreadsheets/d/"@ + sheet_id + "/export?format=csv&id="@ + sheet_id
        + "&gid="@ + gid
}

/// One tab of the spreadsheet and the file it is saved to.
#[derive(Debug, Clone)]
pub struct SheetExport {
    pub gid: String,
    pub output_path: String,
    /// An address to fetch instead of the spreadsheet's own export.
    pub url_override: Option<String>,
}

impl SheetExport {
    pub fn new(gid: String, output_path: String) -> (r: SheetExport)
        ensures
            r.gid@ == gid@,
            r.output_path@ == output_path@,
            r.url_override is None,
    {
        SheetExport { gid, output_path, url_override: None }
    }

    /// The address this tab is fetched from: the override when there is one,
    /// else the CSV export of the tab in the spreadsheet `sheet_id`.
    pub fn export_url(&self, sheet_id: &str) -> (r: String)
        ensures
            r@ == match self.url_override {
                Some(url) => url@,
                None => csv_export_url(sheet_id@, self.gid@),
            },
    {
        match &self.url_override {
            Some(url) => url.clone(),
            None => {
                let mut out = "https://docs.google.com/spreadsheets/d/".to_owned();
                out.append(sheet_id);
                out.append("/export?format=csv&id=");
                out.append(sheet_id);
                out.append("&gid=");
                out.append(self.gid.as_str());
                out
            },
        }
    }
}

/// The tabs that are downloaded, in the order they are fetched: the cores,
/// then the parts.
pub fn sheet_exports() -> (r: Vec<SheetExport>)
    ensures
        r@.len() == 2,
        r@[0].gid@ == CORES_SHEET_GID@,
        r@[0].output_path@ == CORES_SHEET@,
        r@[0].url_override is None,
        r@[1].gid@ == PARTS_V2_SHEET_GID@,
        r@[1].output_path@ == PARTS_V2_SHEET@,
        r@[1].url_override is None,
{
    let mut out: Vec<SheetExport> = Vec::new();
    out.push(SheetExport::new(CORES_SHEET_GID.to_owned(), CORES_SHEET.to_owned()));
    out.push(SheetExport::new(PARTS_V2_SHEET_GID.to_owned(), PARTS_V2_SHEET.to_owned()));
    out
}

/// Where a download of a number of sheet exports stands. Every export is
/// fetched before the sheet folder is touched, so a failed fetch leaves the
/// files of the last download in place.
#[derive(Debug, Clone, Copy, PartialEq, Eq, Structural)]
pub enum DownloadStep {
    /// Fetch the export at this position.
    Fetch(usize),
    /// Every export was fetched: empty the sheet folder.
    ClearFolder,
    /// Write the fetched export at this position to its file.
    Write(usize),
    /// Every export was written.
    Done,
    /// A step failed; nothing more is done.
    Failed,
}

/// The first step of a download of `count` exports.
pub open spec fn download_start(count: nat) -> DownloadStep {
    if count > 0 {
        DownloadStep::Fetch(0)
    } else {
        DownloadStep::ClearFolder
    }
}

/// The step after `step`, given whether `step` succeeded.
pub open spec fn download_next(step: DownloadStep, count: nat, succeeded: bool) -> DownloadStep {
    match step {
        DownloadStep::Fetch(i) => if !succeeded {
            DownloadStep::Failed
        } else if i + 1 < count {
            DownloadStep::Fetch((i + 1) as usize)
        } else {
            DownloadStep::ClearFolder
        },
        DownloadStep::ClearFolder => if !succeeded {
            DownloadStep::Failed
        } else if count > 0 {
            DownloadStep::Write(0)
        } else {
            DownloadStep::Done
        },
        DownloadStep::Write(i) => if !succeeded {
            DownloadStep::Failed
        } else if i + 1 < count {
            DownloadStep::Write((i + 1) as usize)
        } else {
            DownloadStep::Done
        },
        DownloadStep::Done => DownloadStep::Done,
        DownloadStep::Failed => DownloadStep::Failed,
    }
}

/// The step reached after the steps so far had these outcomes.
pub open spec fn download_state(count: nat, outcomes: Seq<bool>) -> DownloadStep
    decreases outcomes.len(),
{
    if outcomes.len() == 0 {
        download_start(count)
    } else {
        download_next(download_state(count, outcomes.drop_last()), count, outcomes.last())
    }
}

impl DownloadStep {
    /// The first step of a download of `count` exports.
    pub fn first(count: usize) -> (r: DownloadStep)
        ensures
            r == download_start(count as nat),
    {
        if count > 0 {
            DownloadStep::Fetch(0)
        } else {
            DownloadStep::ClearFolder
        }
    }

    /// The step after this one, given whether this one succeeded.
    pub fn next(self, count: usize, succeeded: bool) -> (r: DownloadStep)
        ensures
            r == download_next(self, count as nat, succeeded),
    {
        match self {
            DownloadStep::Fetch(i) => if !succeeded {
                DownloadStep::Failed
            } else if count > 0 && i < count - 1 {
                DownloadStep::Fetch(i + 1)
            } else {
                DownloadStep::ClearFolder
            },
            DownloadStep::ClearFolder => if !succeeded {
                DownloadStep::Failed
            } else if count > 0 {
                DownloadStep::Write(0)
            } else {
                DownloadStep::Done
            },
            DownloadStep::Write(i) => if !succeeded {
                DownloadStep::Failed
            } else if count > 0 && i < count - 1 {
                DownloadStep::Write(i + 1)
            } else {
                DownloadStep::Done
            },
            DownloadStep::Done => DownloadStep::Done,
            DownloadStep::Failed => DownloadStep::Failed,
        }
    }
}

/// Whether a run has ended.
pub open spec fn download_over(step: DownloadStep) -> bool {
    step == DownloadStep::Done || step == DownloadStep::Failed
}

/// Where a download stands after the steps it performed had these outcomes:
/// the exports are fetched one by one, the folder is cleared only once all
/// of them were fetched, the files are then written one by one, and the
/// first failure ends the run.
pub proof fn lemma_download_order(count: usize, outcomes: Seq<bool>)
    requires
        forall|k: int|
            0 <= k < outcomes.len() ==> !download_over(#[trigger] download_state(count as nat, outcomes.take(k))),
    ensures
        ({
            let st = download_state(count as nat, outcomes);
            &&& st != DownloadStep::Failed <==> forall|i: int| 0 <= i < outcomes.len() ==> #[trigger] outcomes[i]
            &&& st matches DownloadStep::Fetch(i) ==> i < count && outcomes.len() == i
            &&& st == DownloadStep::ClearFolder ==> outcomes.len() == count
            &&& st matches DownloadStep::Write(i) ==> i < count && outcomes.len() == count + 1 + i
            &&& st == DownloadStep::Done ==> outcomes.len() == 2 * count + 1
        }),
    decreases outcomes.len(),
{
    if outcomes.len() > 0 {
        let n = outcomes.len() - 1;
        let prev = outcomes.drop_last();
        assert forall|k: int| 0 <= k < prev.len() implies !download_over(
            #[trigger] download_state(count as nat, prev.take(k)),
        ) by {
            assert(prev.take(k) == outcomes.take(k));
        }
        lemma_download_order(count, prev);
        assert(outcomes.take(n) == prev);
        assert(!download_over(download_state(count as nat, outcomes.take(n))));
        assert forall|i: int| 0 <= i < prev.len() implies #[trigger] prev[i] == outcomes[i] by {}
        if !outcomes.last() {
            assert(!outcomes[n]);
        } else {
            assert forall|i: int| 0 <= i < outcomes.len() implies #[trigger] outcomes[i] == (
            if i < n {
                prev[i]
            } else {
                true
            }) by {}
        }
    }
}

/// The sheet folder is cleared or written to only after every export was
/// fetched: a run that got that far had its first `count` steps succeed.
pub proof fn lemma_folder_kept_until_all_fetched(count: usize, outcomes: Seq<bool>)
    requires
        forall|k: int|
            0 <= k < outcomes.len() ==> !download_over(#[trigger] download_state(count as nat, outcomes.take(k))),
    ensures
        match download_state(count as nat, outcomes) {
            DownloadStep::ClearFolder | DownloadStep::Write(_) | DownloadStep::Done => outcomes.len()
                >= count && forall|i: int| 0 <= i < count ==> #[trigger] outcomes[i],
            _ => true,
        },
{
    lemma_download_order(count, outcomes);
}

} // verus!
