use vstd::prelude::*;
use vstd::string::StringExecFns;

use crate::table::pairs_view;
use crate::text::{chars_of, ends_with_chars, lower_chars, lower_seq, push_char};

verus! {

/// `s` ends with `suffix`.
pub open spec fn has_suffix(s: Seq<char>, suffix: Seq<char>) -> bool {
    suffix.len() <= s.len() && s.skip(s.len() - suffix.len()) == suffix
}

/// A data file is read as a SQLite database when its name ends in `.sqlite`,
/// `.sqlite3` or `.db`, ASCII case ignored; any other file is read as JSON.
pub open spec fn is_sqlite_path(path: Seq<char>) -> bool {
    let l = lower_seq(path);
    has_suffix(l, ".sqlite"@) || has_suffix(l, ".sqlite3"@) || has_suffix(l, ".db"@)
}

pub fn sqlite_path(path: &str) -> (r: bool)
    ensures
        r == is_sqlite_path(path@),
{
    let lowered = lower_chars(path);
    let sqlite = chars_of(".sqlite");
    let sqlite3 = chars_of(".sqlite3");
    let db = chars_of(".db");
    ends_with_chars(lowered.as_slice(), sqlite.as_slice()) || ends_with_chars(
        lowered.as_slice(),
        sqlite3.as_slice(),
    ) || ends_with_chars(lowered.as_slice(), db.as_slice())
}

/// The character of a decimal digit.
pub open spec fn digit_char(d: int) -> char {
    (d + 48) as char
}

/// The decimal numeral of `n`, without leading zeros.
pub open spec fn decimal(n: nat) -> Seq<char>
    decreases n,
{
    if n < 10 {
        seq![digit_char(n as int)]
    } else {
        decimal(n / 10).push(digit_char((n % 10) as int))
    }
}

/// The decimal numeral of `n`.
pub fn decimal_text(n: u32) -> (r: String)
    ensures
        r@ == decimal(n as nat),
    decreases n,
{
    let d: u32 = n % 10;
    let c = ((d as u8) + 48) as char;
    assert(c == digit_char(d as int));
    if n < 10 {
        let mut out = String::new();
        push_char(&mut out, c);
        assert(out@ =~= seq![digit_char(n as int)]);
        out
    } else {
        let mut out = decimal_text(n / 10);
        push_char(&mut out, c);
        out
    }
}

/// The name under which a new database is generated next to `file_name`
/// before it replaces it: hidden, and marked with the generating process.
pub open spec fn temporary_name(file_name: Seq<char>, process_id: nat) -> Seq<char> {
    "."@ + file_name + "."@ + decimal(process_id) + ".tmp"@
}

pub fn temporary_file_name(file_name: &str, process_id: u32) -> (r: String)
    ensures
        r@ == temporary_name(file_name@, process_id as nat),
{
    let mut out = ".".to_owned();
    out.append(file_name);
    out.append(".");
    let digits = decimal_text(process_id);
    out.append(digits.as_str());
    out.append(".tmp");
    out
}

/// The categories of primary weapons, each with its row and column in the
/// penalty matrix.
pub open spec fn primary_categories() -> Seq<(Seq<char>, usize)> {
    seq![
        ("AR"@, 0usize),
        ("Sniper"@, 1usize),
        ("SMG"@, 2usize),
        ("Shotgun"@, 3usize),
        ("LMG"@, 4usize),
        ("Weird"@, 5usize),
        ("BR"@, 6usize),
    ]
}

/// The categories of secondary weapons, each with its row and column in the
/// penalty matrix.
pub open spec fn secondary_categories() -> Seq<(Seq<char>, usize)> {
    seq![("Sidearm"@, 7usize)]
}

/// Each weapon category has its own fixed row and column of the penalty
/// matrix: AR 0, Sniper 1, SMG 2, Shotgun 3, LMG 4, Weird 5, BR 6 among the
/// primary weapons and Sidearm 7 as the secondary one; no two share one.
pub proof fn lemma_category_indices()
    ensures
        primary_categories().len() == 7,
        primary_categories()[0] == ("AR"@, 0usize),
        primary_categories()[1] == ("Sniper"@, 1usize),
        primary_categories()[2] == ("SMG"@, 2usize),
        primary_categories()[3] == ("Shotgun"@, 3usize),
        primary_categories()[4] == ("LMG"@, 4usize),
        primary_categories()[5] == ("Weird"@, 5usize),
        primary_categories()[6] == ("BR"@, 6usize),
        secondary_categories() == seq![("Sidearm"@, 7usize)],
        forall|i: int, j: int|
            0 <= i < j < 7 ==> (#[trigger] primary_categories()[i]).1 != (#[trigger] primary_categories()[j]).1,
        forall|i: int| 0 <= i < 7 ==> (#[trigger] primary_categories()[i]).1 == i,
{
}

fn named(name: &str, index: usize) -> (r: (String, usize))
    ensures
        r.0@ == name@,
        r.1 == index,
{
    (name.to_owned(), index)
}

/// The category groups written with the game data: the primary weapons,
/// then the secondary ones.
pub fn category_groups() -> (r: Vec<(String, Vec<(String, usize)>)>)
    ensures
        r@.len() == 2,
        r@[0].0@ == "Primary"@,
        pairs_view(r@[0].1@) == primary_categories(),
        pairs_view(r@[0].1@) == seq![
            ("AR"@, 0usize),
            ("Sniper"@, 1usize),
            ("SMG"@, 2usize),
            ("Shotgun"@, 3usize),
            ("LMG"@, 4usize),
            ("Weird"@, 5usize),
            ("BR"@, 6usize),
        ],
        pairs_view(r@[1].1@) == seq![("Sidearm"@, 7usize)],
        r@[1].0@ == "Secondary"@,
        pairs_view(r@[1].1@) == secondary_categories(),
{
    let mut primary: Vec<(String, usize)> = Vec::new();
    primary.push(named("AR", 0));
    primary.push(named("Sniper", 1));
    primary.push(named("SMG", 2));
    primary.push(named("Shotgun", 3));
    primary.push(named("LMG", 4));
    primary.push(named("Weird", 5));
    primary.push(named("BR", 6));
    let mut secondary: Vec<(String, usize)> = Vec::new();
    secondary.push(named("Sidearm", 7));
    assert(pairs_view(primary@) =~= primary_categories());
    assert(pairs_view(secondary@) =~= secondary_categories());
    let mut groups: Vec<(String, Vec<(String, usize)>)> = Vec::new();
    groups.push(named_group("Primary", primary));
    groups.push(named_group("Secondary", secondary));
    groups
}

fn named_group(name: &str, members: Vec<(String, usize)>) -> (r: (String, Vec<(String, usize)>))
    ensures
        r.0@ == name@,
        r.1@ == members@,
{
    (name.to_owned(), members)
}

/// Where the writing of a new database stands. The new database is written
/// to a temporary file first; the existing one is removed only once that
/// file is complete, so a failed generation leaves it in place.
#[derive(Debug, Clone, Copy, PartialEq, Eq, Structural)]
pub enum SaveStep {
    /// Create the folder the database goes to.
    PrepareDirectory,
    /// Remove a temporary file left by an earlier run, if there is one.
    RemoveStaleTemp,
    /// Write the whole database to the temporary file.
    WriteTemp,
    /// Writing failed: remove the temporary file (whether that works or not,
    /// the run then fails).
    DiscardTemp,
    /// Remove the existing database, if there is one.
    RemoveOld,
    /// Rename the temporary file to the database's name.
    Replace,
    /// The new database is in place.
    Done,
    /// A step failed; nothing more is done.
    Failed,
}

/// The step after `step`, given whether `step` succeeded.
pub open spec fn save_next(step: SaveStep, succeeded: bool) -> SaveStep {
    match step {
        SaveStep::PrepareDirectory => if succeeded {
            SaveStep::RemoveStaleTemp
        } else {
            SaveStep::Failed
        },
        SaveStep::RemoveStaleTemp => if succeeded {
            SaveStep::WriteTemp
        } else {
            SaveStep::Failed
        },
        SaveStep::WriteTemp => if succeeded {
            SaveStep::RemoveOld
        } else {
            SaveStep::DiscardTemp
        },
        SaveStep::DiscardTemp => SaveStep::Failed,
        SaveStep::RemoveOld => if succeeded {
            SaveStep::Replace
        } else {
            SaveStep::Failed
        },
        SaveStep::Replace => if succeeded {
            SaveStep::Done
        } else {
            SaveStep::Failed
        },
        SaveStep::Done => SaveStep::Done,
        SaveStep::Failed => SaveStep::Failed,
    }
}

/// The step reached after the steps so far had these outcomes.
pub open spec fn save_state(outcomes: Seq<bool>) -> SaveStep
    decreases outcomes.len(),
{
    if outcomes.len() == 0 {
        SaveStep::PrepareDirectory
    } else {
        save_next(save_state(outcomes.drop_last()), outcomes.last())
    }
}

impl SaveStep {
    pub fn first() -> (r: SaveStep)
        ensures
            r == save_state(Seq::empty()),
    {
        SaveStep::PrepareDirectory
    }

    /// The step after this one, given whether this one succeeded.
    pub fn next(self, succeeded: bool) -> (r: SaveStep)
        ensures
            r == save_next(self, succeeded),
    {
        match self {
            SaveStep::PrepareDirectory => if succeeded {
                SaveStep::RemoveStaleTemp
            } else {
                SaveStep::Failed
            },
            SaveStep::RemoveStaleTemp => if succeeded {
                SaveStep::WriteTemp
            } else {
                SaveStep::Failed
            },
            SaveStep::WriteTemp => if succeeded {
                SaveStep::RemoveOld
            } else {
                SaveStep::DiscardTemp
            },
            SaveStep::DiscardTemp => SaveStep::Failed,
            SaveStep::RemoveOld => if succeeded {
                SaveStep::Replace
            } else {
                SaveStep::Failed
            },
            SaveStep::Replace => if succeeded {
                SaveStep::Done
            } else {
                SaveStep::Failed
            },
            SaveStep::Done => SaveStep::Done,
            SaveStep::Failed => SaveStep::Failed,
        }
    }
}

proof fn lemma_save_positions(outcomes: Seq<bool>)
    ensures
        match save_state(outcomes) {
            SaveStep::PrepareDirectory => outcomes.len() == 0,
            SaveStep::RemoveStaleTemp => outcomes.len() == 1 && outcomes[0],
            SaveStep::WriteTemp => outcomes.len() == 2 && outcomes[0] && outcomes[1],
            SaveStep::DiscardTemp => outcomes.len() == 3 && outcomes[0] && outcomes[1] && !outcomes[2],
            SaveStep::RemoveOld => outcomes.len() == 3 && outcomes[0] && outcomes[1] && outcomes[2],
            SaveStep::Replace => outcomes.len() == 4 && outcomes[0] && outcomes[1] && outcomes[2],
            SaveStep::Done => outcomes.len() >= 5 && outcomes[0] && outcomes[1] && outcomes[2],
            SaveStep::Failed => true,
        },
    decreases outcomes.len(),
{
    if outcomes.len() > 0 {
        let prev = outcomes.drop_last();
        lemma_save_positions(prev);
        assert forall|i: int| 0 <= i < prev.len() implies #[trigger] prev[i] == outcomes[i] by {}
        assert(outcomes.last() == outcomes[outcomes.len() - 1]);
    }
}

/// The existing database is removed only after its replacement was written
/// in full: a run that reaches the removal, the renaming or the end had the
/// preparation and the writing of the temporary file succeed; one whose
/// writing failed discards the temporary file next.
pub proof fn lemma_old_database_kept_until_written(outcomes: Seq<bool>)
    ensures
        match save_state(outcomes) {
            SaveStep::DiscardTemp => outcomes.len() >= 3 && outcomes[0] && outcomes[1] && !outcomes[2],
            SaveStep::RemoveOld | SaveStep::Replace | SaveStep::Done => outcomes.len() >= 3 && outcomes[0]
                && outcomes[1] && outcomes[2],
            _ => true,
        },
{
    lemma_save_positions(outcomes);
}

} // verus!
