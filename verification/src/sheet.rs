use vstd::prelude::*;

use crate::numeric::{
    integer_text, is_mantissa, is_unit, lemma_plain_number, lemma_ranges_read, normalize_numeric_value,
    parse_i64, spec_normalize, NumericValue, SpecNumeric, SpecTerm,
};
use crate::text::{
    chars_eq_str, chars_of, contains_seq, find_char, find_chars, lower_ascii_char, lower_seq, remove_all,
    remove_chars, slice_chars, split_once, string_of, trim, trimmed_chars,
};

verus! {

/// Why sheet data is refused.
#[derive(Debug, Clone, PartialEq, Eq)]
pub enum ParseError {
    /// A cell that should hold a range `a - b` (or `a >`) does not; it keeps the raw cell.
    ExpectedRange(String),
    /// Text that is not a number; it keeps the text.
    InvalidNumber(String),
    /// A parts row without 17 cells; it keeps the number of cells.
    InvalidPartsRowLength(usize),
    /// A part listed before any section header.
    PartBeforeHeader,
    /// A part name seen twice in one category and part type.
    DuplicatePart(String),
    /// A property cell without a space after its value; it keeps the cell.
    InvalidPropertyCell(String),
    /// A cores row with fewer than 18 cells; it keeps the number of cells.
    InvalidCoresRowLength(usize),
}

/// `ParseError` with texts as character sequences.
pub enum SpecParseError {
    ExpectedRange(Seq<char>),
    InvalidNumber(Seq<char>),
    InvalidPartsRowLength(usize),
    PartBeforeHeader,
    DuplicatePart(Seq<char>),
    InvalidPropertyCell(Seq<char>),
    InvalidCoresRowLength(usize),
}

impl View for ParseError {
    type V = SpecParseError;

    open spec fn view(&self) -> SpecParseError {
        match self {
            ParseError::ExpectedRange(s) => SpecParseError::ExpectedRange(s@),
            ParseError::InvalidNumber(s) => SpecParseError::InvalidNumber(s@),
            ParseError::InvalidPartsRowLength(n) => SpecParseError::InvalidPartsRowLength(*n),
            ParseError::PartBeforeHeader => SpecParseError::PartBeforeHeader,
            ParseError::DuplicatePart(s) => SpecParseError::DuplicatePart(s@),
            ParseError::InvalidPropertyCell(s) => SpecParseError::InvalidPropertyCell(s@),
            ParseError::InvalidCoresRowLength(n) => SpecParseError::InvalidCoresRowLength(*n),
        }
    }
}

/// The payment kinds a sheet may name.
pub open spec fn is_price_type(s: Seq<char>) -> bool {
    s == "Coin"@ || s == "WC"@ || s == "Follow"@ || s == "Robux"@ || s == "Free"@ || s == "Spin"@ || s
        == "Limited"@ || s == "Missions"@ || s == "Verify discord"@ || s == "Season Pass 1"@ || s
        == "Unknown"@
}

fn is_price_type_exec(v: &[char]) -> (r: bool)
    ensures
        r == is_price_type(v@),
{
    chars_eq_str(v, "Coin") || chars_eq_str(v, "WC") || chars_eq_str(v, "Follow") || chars_eq_str(v, "Robux")
        || chars_eq_str(v, "Free") || chars_eq_str(v, "Spin") || chars_eq_str(v, "Limited") || chars_eq_str(
        v,
        "Missions",
    ) || chars_eq_str(v, "Verify discord") || chars_eq_str(v, "Season Pass 1") || chars_eq_str(v, "Unknown")
}

/// The upper-case mapping of a character (one or more characters), as
/// `char::to_uppercase` gives it.
pub uninterp spec fn char_uppercase(c: char) -> Seq<char>;

/// The upper-case mapping of `c`.
/// Trusted: calls `char::to_uppercase` and collects what it yields; the
/// contract names that result (`char_uppercase`) and states it only for
/// ASCII characters, where the mapping is the one of `char::to_ascii_uppercase`
/// (a letter `a`..`z` becomes `A`..`Z`, every other character stays); it does
/// not state the Unicode case tables beyond that.
#[verifier::external_body]
fn uppercase_of(c: char) -> (r: String)
    ensures
        r@ == char_uppercase(c),
        c < '\u{80}' ==> r@ == seq![crate::text::ascii_upper(c)],
{
    c.to_uppercase().collect()
}

/// `s` with its first character replaced by `first_upper` (its upper-case
/// mapping) and the other ASCII letters lowered.
pub open spec fn capitalized_with(s: Seq<char>, first_upper: Seq<char>) -> Seq<char> {
    first_upper + lower_seq(s.drop_first())
}

/// The payment kind a price cell stands for, where `first_upper` is the
/// upper-case mapping of the first character of the trimmed cell.
pub open spec fn price_type_given(price: Seq<char>, first_upper: Seq<char>) -> Seq<char> {
    let n = trim(price);
    if n.len() == 0 {
        "Coin"@
    } else if is_price_type(n) {
        n
    } else if is_price_type(capitalized_with(n, first_upper)) {
        capitalized_with(n, first_upper)
    } else if contains_seq(n, "WC"@) || n == "Weird Boxes"@ {
        "WC"@
    } else if n == "Exclusive Weird Boxes"@ {
        "Robux"@
    } else if integer_text(remove_all(n, ","@)) is Some {
        "Coin"@
    } else {
        "Unknown"@
    }
}

/// The payment kind a price cell stands for.
pub open spec fn price_type_of(price: Seq<char>) -> Seq<char> {
    let n = trim(price);
    price_type_given(price, if n.len() > 0 { char_uppercase(n[0]) } else { Seq::empty() })
}

proof fn lemma_price_type_shape(t: Seq<char>)
    requires
        is_price_type(t),
    ensures
        t.len() > 0,
        !crate::text::is_white_space(t[0]),
        !crate::text::is_white_space(t.last()),
{
    reveal_strlit("Coin");
    reveal_strlit("WC");
    reveal_strlit("Follow");
    reveal_strlit("Robux");
    reveal_strlit("Free");
    reveal_strlit("Spin");
    reveal_strlit("Limited");
    reveal_strlit("Missions");
    reveal_strlit("Verify discord");
    reveal_strlit("Season Pass 1");
    reveal_strlit("Unknown");
}

/// Every price cell gets one of the known payment kinds, `Unknown` when
/// nothing else fits, whatever the upper-case mapping of its first
/// character is.
pub proof fn lemma_price_type_known(price: Seq<char>, first_upper: Seq<char>)
    ensures
        is_price_type(price_type_given(price, first_upper)),
        is_price_type(price_type_of(price)),
{
}

/// A known payment kind, with or without white space around it, stands for
/// itself.
pub proof fn lemma_price_type_fixed(before: Seq<char>, kind: Seq<char>, after: Seq<char>)
    requires
        is_price_type(kind),
        forall|j: int| 0 <= j < before.len() ==> crate::text::is_white_space(#[trigger] before[j]),
        forall|j: int| 0 <= j < after.len() ==> crate::text::is_white_space(#[trigger] after[j]),
    ensures
        price_type_of(before + kind + after) == kind,
{
    lemma_price_type_shape(kind);
    crate::text::lemma_trim_padded(before, kind, after);
}

/// Reading the payment kind of a payment kind gives it back.
pub proof fn lemma_price_type_idempotent(price: Seq<char>)
    ensures
        price_type_of(price_type_of(price)) == price_type_of(price),
{
    let kind = price_type_of(price);
    lemma_price_type_known(price, Seq::empty());
    assert(Seq::<char>::empty() + kind + Seq::<char>::empty() =~= kind);
    lemma_price_type_fixed(Seq::empty(), kind, Seq::empty());
}

/// The payment kind of a price cell: a known kind (also in capitalised
/// form), `WC` for weird-coin prices, `Robux` for exclusive boxes, `Coin` for
/// a blank cell or a plain amount, `Unknown` otherwise.
pub fn detect_price_type(price: &str) -> (r: String)
    ensures
        r@ == price_type_of(price@),
        trim(price@).len() > 0 && trim(price@)[0] < '\u{80}' ==> r@ == price_type_given(
            price@,
            seq![crate::text::ascii_upper(trim(price@)[0])],
        ),
{
    let v = chars_of(price);
    let n = trimmed_chars(v.as_slice());
    if n.len() == 0 {
        return "Coin".to_owned();
    }
    let first = uppercase_of(n[0]);
    price_type_with_upper(price, first.as_str())
}

/// The payment kind of a price cell, given the upper-case mapping of the
/// first character of the trimmed cell.
pub fn price_type_with_upper(price: &str, first_upper: &str) -> (r: String)
    ensures
        r@ == price_type_given(price@, first_upper@),
        is_price_type(r@),
{
    proof {
        lemma_price_type_known(price@, first_upper@);
    }
    let v = chars_of(price);
    let n = trimmed_chars(v.as_slice());
    if n.len() == 0 {
        return "Coin".to_owned();
    }
    if is_price_type_exec(n.as_slice()) {
        return string_of(n.as_slice());
    }
    let mut cap = chars_of(first_upper);
    let mut i: usize = 1;
    while i < n.len()
        invariant
            1 <= i <= n@.len(),
            cap@ == first_upper@ + lower_seq(n@.drop_first()).take(i - 1),
        decreases n@.len() - i,
    {
        cap.push(lower_ascii_char(n[i]));
        assert(lower_seq(n@.drop_first()).take(i as int) == lower_seq(n@.drop_first()).take(i - 1).push(
            crate::text::ascii_lower(n@[i as int]),
        ));
        i += 1;
    }
    assert(lower_seq(n@.drop_first()).take(n@.len() - 1) == lower_seq(n@.drop_first()));
    if is_price_type_exec(cap.as_slice()) {
        return string_of(cap.as_slice());
    }
    let wc = chars_of("WC");
    if find_chars(n.as_slice(), wc.as_slice()).is_some() || chars_eq_str(n.as_slice(), "Weird Boxes") {
        return "WC".to_owned();
    }
    if chars_eq_str(n.as_slice(), "Exclusive Weird Boxes") {
        return "Robux".to_owned();
    }
    let comma = chars_of(",");
    let digits = remove_chars(n.as_slice(), comma.as_slice());
    if parse_i64(digits.as_slice()).is_some() {
        return "Coin".to_owned();
    }
    "Unknown".to_owned()
}

/// The text before the first space of a property cell.
pub open spec fn leading_token(cell: Seq<char>) -> Result<Seq<char>, SpecParseError> {
    match split_once(cell, seq![' ']) {
        Some((first, _)) => Ok(first),
        None => Err(SpecParseError::InvalidPropertyCell(cell)),
    }
}

/// The value part of a property cell: the text before its first space.
pub fn extract_leading_token(cell: &str) -> (r: Result<String, ParseError>)
    ensures
        match r {
            Ok(t) => leading_token(cell@) == Ok::<Seq<char>, SpecParseError>(t@),
            Err(e) => leading_token(cell@) == Err::<Seq<char>, SpecParseError>(e@),
        },
{
    let v = chars_of(cell);
    match find_char(v.as_slice(), ' ') {
        Some(i) => {
            proof {
                crate::text::lemma_find_from_first(v@, seq![' '], 0);
            }
            assert(crate::text::occurs_at(v@, seq![' '], i as int));
            let first = slice_chars(v.as_slice(), 0, i);
            Ok(string_of(first.as_slice()))
        },
        None => Err(ParseError::InvalidPropertyCell(cell.to_owned())),
    }
}

/// The weapon categories of the sheet, in order.
pub open spec fn category_name(i: int) -> Seq<char> {
    if i == 0 {
        "AR"@
    } else if i == 1 {
        "Sniper"@
    } else if i == 2 {
        "SMG"@
    } else if i == 3 {
        "LMG"@
    } else if i == 4 {
        "Shotgun"@
    } else if i == 5 {
        "BR"@
    } else if i == 6 {
        "Weird"@
    } else {
        "Sidearm"@
    }
}

pub fn category_name_exec(i: usize) -> (r: &'static str)
    requires
        i < 8,
    ensures
        r@ == category_name(i as int),
{
    match i {
        0 => "AR",
        1 => "Sniper",
        2 => "SMG",
        3 => "LMG",
        4 => "Shotgun",
        5 => "BR",
        6 => "Weird",
        _ => "Sidearm",
    }
}

/// The position of a name in that list.
pub open spec fn category_index(s: Seq<char>) -> Option<int> {
    if s == "AR"@ {
        Some(0)
    } else if s == "Sniper"@ {
        Some(1)
    } else if s == "SMG"@ {
        Some(2)
    } else if s == "LMG"@ {
        Some(3)
    } else if s == "Shotgun"@ {
        Some(4)
    } else if s == "BR"@ {
        Some(5)
    } else if s == "Weird"@ {
        Some(6)
    } else if s == "Sidearm"@ {
        Some(7)
    } else {
        None
    }
}

pub fn category_index_exec(v: &[char]) -> (r: Option<usize>)
    ensures
        match category_index(v@) {
            Some(i) => r == Some(i as usize),
            None => r is None,
        },
{
    if chars_eq_str(v, "AR") {
        Some(0)
    } else if chars_eq_str(v, "Sniper") {
        Some(1)
    } else if chars_eq_str(v, "SMG") {
        Some(2)
    } else if chars_eq_str(v, "LMG") {
        Some(3)
    } else if chars_eq_str(v, "Shotgun") {
        Some(4)
    } else if chars_eq_str(v, "BR") {
        Some(5)
    } else if chars_eq_str(v, "Weird") {
        Some(6)
    } else if chars_eq_str(v, "Sidearm") {
        Some(7)
    } else {
        None
    }
}

/// The part types of the sheet, in order.
pub open spec fn part_type_name(i: int) -> Seq<char> {
    if i == 0 {
        "Barrels"@
    } else if i == 1 {
        "Magazines"@
    } else if i == 2 {
        "Grips"@
    } else {
        "Stocks"@
    }
}

pub fn part_type_name_exec(i: usize) -> (r: &'static str)
    requires
        i < 4,
    ensures
        r@ == part_type_name(i as int),
{
    match i {
        0 => "Barrels",
        1 => "Magazines",
        2 => "Grips",
        _ => "Stocks",
    }
}

/// The position of a name in that list.
pub open spec fn part_type_index(s: Seq<char>) -> Option<int> {
    if s == "Barrels"@ {
        Some(0)
    } else if s == "Magazines"@ {
        Some(1)
    } else if s == "Grips"@ {
        Some(2)
    } else if s == "Stocks"@ {
        Some(3)
    } else {
        None
    }
}

pub fn part_type_index_exec(v: &[char]) -> (r: Option<usize>)
    ensures
        match part_type_index(v@) {
            Some(i) => r == Some(i as usize),
            None => r is None,
        },
{
    if chars_eq_str(v, "Barrels") {
        Some(0)
    } else if chars_eq_str(v, "Magazines") {
        Some(1)
    } else if chars_eq_str(v, "Grips") {
        Some(2)
    } else if chars_eq_str(v, "Stocks") {
        Some(3)
    } else {
        None
    }
}

/// The property read from each value column of a parts row.
pub open spec fn part_property_name(i: int) -> Seq<char> {
    if i == 0 {
        "Magazine_Size"@
    } else if i == 1 {
        "Reload_Time"@
    } else if i == 2 {
        "Damage"@
    } else if i == 3 {
        "Detection_Radius"@
    } else if i == 4 {
        "Equip_Time"@
    } else if i == 5 {
        "Fire_Rate"@
    } else if i == 6 {
        "Health"@
    } else if i == 7 {
        "Magazine_Cap"@
    } else if i == 8 {
        "Movement_Speed"@
    } else if i == 9 {
        "Pellets"@
    } else if i == 10 {
        "Range"@
    } else if i == 11 {
        "Recoil"@
    } else if i == 12 {
        "Reload_Speed"@
    } else {
        "Spread"@
    }
}

pub fn part_property_name_exec(i: usize) -> (r: &'static str)
    requires
        i < 14,
    ensures
        r@ == part_property_name(i as int),
{
    match i {
        0 => "Magazine_Size",
        1 => "Reload_Time",
        2 => "Damage",
        3 => "Detection_Radius",
        4 => "Equip_Time",
        5 => "Fire_Rate",
        6 => "Health",
        7 => "Magazine_Cap",
        8 => "Movement_Speed",
        9 => "Pellets",
        10 => "Range",
        11 => "Recoil",
        12 => "Reload_Speed",
        _ => "Spread",
    }
}

/// The property read from each value column of a cores row.
pub open spec fn core_property_name(i: int) -> Seq<char> {
    if i == 0 {
        "Damage"@
    } else if i == 1 {
        "Dropoff_Studs"@
    } else if i == 2 {
        "Fire_Rate"@
    } else if i == 3 {
        "Hipfire_Spread"@
    } else if i == 4 {
        "ADS_Spread"@
    } else if i == 5 {
        "Time_To_Aim"@
    } else if i == 6 {
        "Detection_Radius"@
    } else if i == 7 {
        "Burst"@
    } else if i == 8 {
        "Movement_Speed_Modifier"@
    } else if i == 9 {
        "Suppression"@
    } else if i == 10 {
        "Health"@
    } else if i == 11 {
        "Equip_Time"@
    } else if i == 12 {
        "Recoil_Hip_Horizontal"@
    } else if i == 13 {
        "Recoil_Hip_Vertical"@
    } else if i == 14 {
        "Recoil_Aim_Horizontal"@
    } else {
        "Recoil_Aim_Vertical"@
    }
}

pub fn core_property_name_exec(i: usize) -> (r: &'static str)
    requires
        i < 16,
    ensures
        r@ == core_property_name(i as int),
{
    match i {
        0 => "Damage",
        1 => "Dropoff_Studs",
        2 => "Fire_Rate",
        3 => "Hipfire_Spread",
        4 => "ADS_Spread",
        5 => "Time_To_Aim",
        6 => "Detection_Radius",
        7 => "Burst",
        8 => "Movement_Speed_Modifier",
        9 => "Suppression",
        10 => "Health",
        11 => "Equip_Time",
        12 => "Recoil_Hip_Horizontal",
        13 => "Recoil_Hip_Vertical",
        14 => "Recoil_Aim_Horizontal",
        _ => "Recoil_Aim_Vertical",
    }
}

/// A section header `<category> <part type>`: exactly two words, a known
/// category and a known part type.
pub open spec fn divider(name: Seq<char>) -> Option<(int, int)> {
    let w = crate::text::words(name);
    if w.len() != 2 {
        None
    } else {
        match (category_index(w[0]), part_type_index(w[1])) {
            (Some(c), Some(t)) => Some((c, t)),
            _ => None,
        }
    }
}

fn parse_divider(name: &[char]) -> (r: Option<(usize, usize)>)
    ensures
        match divider(name@) {
            Some((c, t)) => r == Some((c as usize, t as usize)),
            None => r is None,
        },
{
    let w = crate::text::words_of(name);
    if w.len() != 2 {
        return None;
    }
    let c = category_index_exec(w[0].as_slice());
    let t = part_type_index_exec(w[1].as_slice());
    match (c, t) {
        (Some(c), Some(t)) => Some((c, t)),
        _ => None,
    }
}

/// The pellet count in a damage cell `d x p > ...`: the integer after the
/// first `x` of the text before the first ` > `.
pub open spec fn pellets_of(cell: Seq<char>) -> Option<i64> {
    let first = match split_once(cell, " > "@) {
        Some((a, _)) => a,
        None => cell,
    };
    match split_once(first, seq!['x']) {
        Some((_, right)) => integer_text(trim(right)),
        None => None,
    }
}

fn extract_pellets(cell: &[char]) -> (r: Option<i64>)
    ensures
        r == pellets_of(cell@),
{
    let sep = chars_of(" > ");
    proof {
        reveal_strlit(" > ");
        crate::text::lemma_find_from_first(cell@, sep@, 0);
    }
    let first = match find_chars(cell, sep.as_slice()) {
        Some(i) => {
            assert(crate::text::occurs_at(cell@, sep@, i as int));
            slice_chars(cell, 0, i)
        },
        None => slice_chars(cell, 0, cell.len()),
    };
    assert(cell@.subrange(0, cell@.len() as int) == cell@);
    proof {
        crate::text::lemma_find_from_first(first@, seq!['x'], 0);
    }
    match find_char(first.as_slice(), 'x') {
        Some(i) => {
            assert(crate::text::occurs_at(first@, seq!['x'], i as int));
            let right = slice_chars(first.as_slice(), i + 1, first.len());
            assert(right@ == first@.skip(i + 1));
            let t = trimmed_chars(right.as_slice());
            parse_i64(t.as_slice())
        },
        None => None,
    }
}

/// A property of a sheet row: its name and the value read from its cell.
#[derive(Debug, Clone, PartialEq)]
pub struct Property {
    pub name: String,
    pub value: NumericValue,
}

pub open spec fn properties_view(ps: Seq<Property>) -> Seq<(Seq<char>, SpecNumeric)> {
    ps.map_values(|p: Property| (p.name@, p.value@))
}

/// A part read from the parts sheet.
#[derive(Debug, Clone, PartialEq)]
pub struct PartRecord {
    pub price_type: String,
    pub name: String,
    pub category: String,
    pub properties: Vec<Property>,
}

pub struct SpecPart {
    pub price_type: Seq<char>,
    pub name: Seq<char>,
    pub category: Seq<char>,
    pub properties: Seq<(Seq<char>, SpecNumeric)>,
}

impl View for PartRecord {
    type V = SpecPart;

    open spec fn view(&self) -> SpecPart {
        SpecPart {
            price_type: self.price_type@,
            name: self.name@,
            category: self.category@,
            properties: properties_view(self.properties@),
        }
    }
}

pub open spec fn parts_view(ps: Seq<PartRecord>) -> Seq<SpecPart> {
    ps.map_values(|p: PartRecord| p@)
}

/// The parts of a parts sheet, by part type.
#[derive(Debug, Clone, PartialEq)]
pub struct PartsOutput {
    pub barrels: Vec<PartRecord>,
    pub magazines: Vec<PartRecord>,
    pub grips: Vec<PartRecord>,
    pub stocks: Vec<PartRecord>,
}

impl View for PartsOutput {
    type V = Seq<Seq<SpecPart>>;

    /// The sections in part-type order: barrels, magazines, grips, stocks.
    open spec fn view(&self) -> Seq<Seq<SpecPart>> {
        seq![
            parts_view(self.barrels@),
            parts_view(self.magazines@),
            parts_view(self.grips@),
            parts_view(self.stocks@),
        ]
    }
}

/// The cells of sheet rows as character sequences.
pub open spec fn rows_view(rows: Seq<Vec<String>>) -> Seq<Seq<Seq<char>>> {
    rows.map_values(|r: Vec<String>| r@.map_values(|c: String| c@))
}

/// The properties of a parts row read from its first `k` value columns
/// (columns 2 onwards): a non-blank cell holds a value, then a space.
pub open spec fn part_props(row: Seq<Seq<char>>, k: int) -> Result<Seq<(Seq<char>, SpecNumeric)>, SpecParseError>
    decreases k,
{
    if k <= 0 {
        Ok(Seq::empty())
    } else {
        match part_props(row, k - 1) {
            Err(e) => Err(e),
            Ok(ps) => {
                let cell = trim(row[k + 1]);
                if cell.len() == 0 {
                    Ok(ps)
                } else {
                    match leading_token(cell) {
                        Err(e) => Err(e),
                        Ok(tok) => match spec_normalize(tok, false) {
                            Err(e) => Err(e),
                            Ok(v) => Ok(ps.push((part_property_name(k - 1), v))),
                        },
                    }
                }
            },
        }
    }
}

proof fn lemma_part_props_error_stays(row: Seq<Seq<char>>, k: int, j: int)
    requires
        0 <= k <= j,
        part_props(row, k) is Err,
    ensures
        part_props(row, j) == part_props(row, k),
    decreases j - k,
{
    if k < j {
        lemma_part_props_error_stays(row, k, j - 1);
    }
}

/// Where the parts parser stands after some rows.
pub struct PartsState {
    pub category: int,
    pub part_type: Option<int>,
    pub seen: Seq<(int, Seq<char>)>,
    pub sections: Seq<Seq<SpecPart>>,
    pub error: Option<SpecParseError>,
}

/// Reading one parts row: blank rows are skipped, a header switches the
/// section, any other row is a part of the current section whose name must
/// be new in it (the name counts as seen even when its cells are refused).
pub open spec fn parts_step(st: PartsState, row: Seq<Seq<char>>) -> PartsState {
    if st.error is Some || row.len() == 0 {
        st
    } else if row.len() != 17 {
        PartsState { error: Some(SpecParseError::InvalidPartsRowLength(row.len() as usize)), ..st }
    } else {
        let name = trim(row[1]);
        match divider(name) {
            Some((c, t)) => PartsState { category: c, part_type: Some(t), ..st },
            None => match st.part_type {
                None => PartsState { error: Some(SpecParseError::PartBeforeHeader), ..st },
                Some(t) => {
                    let slot = st.category * 4 + t;
                    if st.seen.contains((slot, name)) {
                        PartsState { error: Some(SpecParseError::DuplicatePart(name)), ..st }
                    } else {
                        let seen = st.seen.push((slot, name));
                        match part_props(row, 14) {
                            Err(e) => PartsState { seen, error: Some(e), ..st },
                            Ok(ps) => {
                                let part = SpecPart {
                                    price_type: price_type_of(row[0]),
                                    name,
                                    category: category_name(st.category),
                                    properties: ps,
                                };
                                PartsState { seen, sections: st.sections.update(t, st.sections[t].push(part)), ..st }
                            },
                        }
                    }
                },
            },
        }
    }
}

pub open spec fn parts_run(st: PartsState, rows: Seq<Seq<Seq<char>>>) -> PartsState
    decreases rows.len(),
{
    if rows.len() == 0 {
        st
    } else {
        parts_step(parts_run(st, rows.drop_last()), rows.last())
    }
}

/// The state before the first row: category AR, no section yet.
pub open spec fn parts_start(seen: Seq<(int, Seq<char>)>) -> PartsState {
    PartsState {
        category: 0,
        part_type: None,
        seen,
        sections: seq![Seq::empty(), Seq::empty(), Seq::empty(), Seq::empty()],
        error: None,
    }
}

proof fn lemma_parts_error_stays(st: PartsState, rows: Seq<Seq<Seq<char>>>, k: int)
    requires
        0 <= k <= rows.len(),
        parts_run(st, rows.take(k)).error is Some,
    ensures
        parts_run(st, rows) == parts_run(st, rows.take(k)),
    decreases rows.len() - k,
{
    if k < rows.len() {
        assert(rows.take(k + 1).drop_last() == rows.take(k));
        lemma_parts_error_stays(st, rows, k + 1);
    } else {
        assert(rows.take(k) == rows);
    }
}

/// Property column `i` (column `i + 2` of the row) is refused: it is not
/// blank, and it has no space after its value or its value is not a number.
pub open spec fn bad_property_cell(row: Seq<Seq<char>>, i: int) -> bool {
    let cell = trim(row[i + 2]);
    cell.len() > 0 && match leading_token(cell) {
        Err(_) => true,
        Ok(tok) => spec_normalize(tok, false) is Err,
    }
}

/// The properties of a row are refused exactly when one of its first `k`
/// property cells is.
pub proof fn lemma_part_props_errors(row: Seq<Seq<char>>, k: int)
    requires
        0 <= k,
    ensures
        part_props(row, k) is Err <==> exists|i: int| 0 <= i < k && #[trigger] bad_property_cell(row, i),
    decreases k,
{
    if k > 0 {
        lemma_part_props_errors(row, k - 1);
        if bad_property_cell(row, k - 1) {
            assert(exists|i: int| 0 <= i < k && #[trigger] bad_property_cell(row, i));
        }
        if exists|i: int| 0 <= i < k && #[trigger] bad_property_cell(row, i) {
            let i = choose|i: int| 0 <= i < k && #[trigger] bad_property_cell(row, i);
            if i < k - 1 {
                assert(exists|j: int| 0 <= j < k - 1 && #[trigger] bad_property_cell(row, j));
            }
        }
    }
}

/// A parts row refused in state `st`: a row that is not blank and either has
/// not 17 cells or is a part (not a section header) seen before any header,
/// or named like a part already seen in its category and type (also by an
/// earlier call), or with a refused property cell.
pub open spec fn parts_row_fault(st: PartsState, row: Seq<Seq<char>>) -> bool {
    row.len() > 0 && (row.len() != 17 || {
        let name = trim(row[1]);
        divider(name) is None && match st.part_type {
            None => true,
            Some(t) => st.seen.contains((st.category * 4 + t, name)) || exists|i: int|
                0 <= i < 14 && #[trigger] bad_property_cell(row, i),
        }
    })
}

proof fn lemma_parts_step_error(st: PartsState, row: Seq<Seq<char>>)
    ensures
        parts_step(st, row).error is Some <==> st.error is Some || parts_row_fault(st, row),
{
    if row.len() == 17 {
        lemma_part_props_errors(row, 14);
    }
}

/// Reading parts rows fails exactly when some row is refused in the state the
/// rows before it lead to (with `parts_start`, the names seen by earlier
/// calls count).
pub proof fn lemma_parts_errors(st: PartsState, rows: Seq<Seq<Seq<char>>>)
    requires
        st.error is None,
    ensures
        parts_run(st, rows).error is Some <==> exists|k: int|
            0 <= k < rows.len() && #[trigger] parts_row_fault(parts_run(st, rows.take(k)), rows[k]),
    decreases rows.len(),
{
    if rows.len() > 0 {
        let n = rows.len() - 1;
        let prev = rows.drop_last();
        lemma_parts_errors(st, prev);
        lemma_parts_step_error(parts_run(st, prev), rows.last());
        assert(rows.take(n) == prev);
        assert forall|k: int| 0 <= k < n implies rows.take(k) == prev.take(k) && rows[k] == prev[k] by {}
        if parts_run(st, prev).error is Some {
            let k = choose|k: int| 0 <= k < prev.len() && #[trigger] parts_row_fault(parts_run(st, prev.take(k)), prev[k]);
            assert(rows.take(k) == prev.take(k));
            assert(parts_row_fault(parts_run(st, rows.take(k)), rows[k]));
        } else {
            if exists|k: int| 0 <= k < rows.len() && #[trigger] parts_row_fault(parts_run(st, rows.take(k)), rows[k]) {
                let k = choose|k: int| 0 <= k < rows.len() && #[trigger] parts_row_fault(parts_run(st, rows.take(k)), rows[k]);
                if k < n {
                    assert(rows.take(k) == prev.take(k));
                    assert(parts_row_fault(parts_run(st, prev.take(k)), prev[k]));
                } else {
                    assert(parts_row_fault(parts_run(st, prev), rows.last()));
                }
            }
            if parts_row_fault(parts_run(st, prev), rows.last()) {
                assert(parts_row_fault(parts_run(st, rows.take(n)), rows[n]));
            }
        }
    }
}

proof fn lemma_parts_run_four(
    st: PartsState,
    a: Seq<Seq<char>>,
    b: Seq<Seq<char>>,
    c: Seq<Seq<char>>,
    d: Seq<Seq<char>>,
)
    ensures
        parts_run(st, seq![a, b, c, d]) == parts_step(parts_step(parts_step(parts_step(st, a), b), c), d),
{
    let e = Seq::<Seq<Seq<char>>>::empty();
    lemma_parts_run_push(st, e, a);
    assert(e.push(a) =~= seq![a]);
    lemma_parts_run_push(st, seq![a], b);
    assert(seq![a].push(b) =~= seq![a, b]);
    lemma_parts_run_push(st, seq![a, b], c);
    assert(seq![a, b].push(c) =~= seq![a, b, c]);
    lemma_parts_run_push(st, seq![a, b, c], d);
    assert(seq![a, b, c].push(d) =~= seq![a, b, c, d]);
}

proof fn lemma_parts_run_push(st: PartsState, rows: Seq<Seq<Seq<char>>>, row: Seq<Seq<char>>)
    ensures
        parts_run(st, rows.push(row)) == parts_step(parts_run(st, rows), row),
{
    assert(rows.push(row).drop_last() =~= rows);
}

proof fn lemma_header_step(st: PartsState, h: Seq<Seq<char>>, c: int, t: int)
    requires
        st.error is None,
        h.len() == 17,
        divider(trim(h[1])) == Some((c, t)),
    ensures
        parts_step(st, h) == (PartsState { category: c, part_type: Some(t), ..st }),
{
}

proof fn lemma_new_part_step(st: PartsState, p: Seq<Seq<char>>, t: int)
    requires
        st.error is None,
        st.part_type == Some(t),
        p.len() == 17,
        divider(trim(p[1])) is None,
        !st.seen.contains((st.category * 4 + t, trim(p[1]))),
        forall|i: int| 0 <= i < 14 ==> !#[trigger] bad_property_cell(p, i),
    ensures
        parts_step(st, p).error is None,
        parts_step(st, p).seen == st.seen.push((st.category * 4 + t, trim(p[1]))),
        parts_step(st, p).category == st.category,
        parts_step(st, p).part_type == st.part_type,
{
    lemma_part_props_errors(p, 14);
}

proof fn lemma_seen_part_step(st: PartsState, p: Seq<Seq<char>>, t: int)
    requires
        st.error is None,
        st.part_type == Some(t),
        p.len() == 17,
        divider(trim(p[1])) is None,
        st.seen.contains((st.category * 4 + t, trim(p[1]))),
    ensures
        parts_step(st, p).error == Some(SpecParseError::DuplicatePart(trim(p[1]))),
{
}

/// A part name counts as a duplicate only within one category and one part
/// type: after a part listed under a section header, the same name listed
/// under a header of another part type of the same category is accepted,
/// and listed again under the same category and type it is refused.
#[verifier::rlimit(50)]
pub proof fn lemma_duplicates_per_part_type(
    st: PartsState,
    h1: Seq<Seq<char>>,
    p1: Seq<Seq<char>>,
    h2: Seq<Seq<char>>,
    p2: Seq<Seq<char>>,
    c: int,
    t1: int,
    t2: int,
)
    requires
        st.error is None,
        h1.len() == 17,
        p1.len() == 17,
        h2.len() == 17,
        p2.len() == 17,
        divider(trim(h1[1])) == Some((c, t1)),
        divider(trim(h2[1])) == Some((c, t2)),
        divider(trim(p1[1])) is None,
        trim(p2[1]) == trim(p1[1]),
        forall|i: int| 0 <= i < 14 ==> !#[trigger] bad_property_cell(p1, i),
        forall|i: int| 0 <= i < 14 ==> !#[trigger] bad_property_cell(p2, i),
        forall|x: int| !st.seen.contains((x, trim(p1[1]))),
    ensures
        t1 != t2 ==> parts_run(st, seq![h1, p1, h2, p2]).error is None,
        t1 == t2 ==> parts_run(st, seq![h1, p1, h2, p2]).error == Some(
            SpecParseError::DuplicatePart(trim(p1[1])),
        ),
{
    let name = trim(p1[1]);
    lemma_parts_run_four(st, h1, p1, h2, p2);
    lemma_header_step(st, h1, c, t1);
    let s1 = parts_step(st, h1);
    assert(s1.seen == st.seen);
    lemma_new_part_step(s1, p1, t1);
    let s2 = parts_step(s1, p1);
    lemma_header_step(s2, h2, c, t2);
    let s3 = parts_step(s2, h2);
    assert(s3.seen == st.seen.push((c * 4 + t1, name)));
    assert(s3.category == c && s3.part_type == Some(t2));
    if t1 != t2 {
        assert(!s3.seen.contains((c * 4 + t2, name))) by {
            if s3.seen.contains((c * 4 + t2, name)) {
                let i = choose|i: int| 0 <= i < s3.seen.len() && s3.seen[i] == (c * 4 + t2, name);
                if i < st.seen.len() {
                    assert(st.seen[i] == s3.seen[i]);
                    assert(st.seen.contains((c * 4 + t2, name)));
                }
            }
        }
        lemma_new_part_step(s3, p2, t2);
    } else {
        assert(s3.seen[st.seen.len() as int] == (c * 4 + t2, name));
        assert(s3.seen.contains((c * 4 + t2, name)));
        lemma_seen_part_step(s3, p2, t2);
    }
}

/// Reads the rows of the parts sheet; part names seen so far are remembered
/// across calls.
pub struct PartsParser {
    seen: Vec<(usize, String)>,
}

impl View for PartsParser {
    type V = Seq<(int, Seq<char>)>;

    /// The (category × part type slot, name) pairs seen so far.
    closed spec fn view(&self) -> Seq<(int, Seq<char>)> {
        self.seen@.map_values(|p: (usize, String)| (p.0 as int, p.1@))
    }
}

fn part_properties(row: &Vec<String>) -> (r: Result<Vec<Property>, ParseError>)
    requires
        row@.len() == 17,
    ensures
        match r {
            Ok(ps) => part_props(row@.map_values(|c: String| c@), 14) == Ok::<
                Seq<(Seq<char>, SpecNumeric)>,
                SpecParseError,
            >(properties_view(ps@)),
            Err(e) => part_props(row@.map_values(|c: String| c@), 14) == Err::<
                Seq<(Seq<char>, SpecNumeric)>,
                SpecParseError,
            >(e@),
        },
{
    let ghost rv = row@.map_values(|c: String| c@);
    let mut props: Vec<Property> = Vec::new();
    let mut k: usize = 0;
    assert(properties_view(props@) =~= Seq::<(Seq<char>, SpecNumeric)>::empty());
    while k < 14
        invariant
            k <= 14,
            row@.len() == 17,
            rv == row@.map_values(|c: String| c@),
            part_props(rv, k as int) == Ok::<Seq<(Seq<char>, SpecNumeric)>, SpecParseError>(
                properties_view(props@),
            ),
        decreases 14 - k,
    {
        let cell_chars = chars_of(row[k + 2].as_str());
        let cell = trimmed_chars(cell_chars.as_slice());
        assert(cell@ == trim(rv[k + 2]));
        if cell.len() > 0 {
            let cell_text = string_of(cell.as_slice());
            let tok = match extract_leading_token(cell_text.as_str()) {
                Ok(tok) => tok,
                Err(e) => {
                    proof {
                        lemma_part_props_error_stays(rv, k + 1, 14);
                    }
                    return Err(e);
                },
            };
            let value = match normalize_numeric_value(tok.as_str(), false) {
                Ok(v) => v,
                Err(e) => {
                    proof {
                        lemma_part_props_error_stays(rv, k + 1, 14);
                    }
                    return Err(e);
                },
            };
            let name = part_property_name_exec(k).to_owned();
            let ghost before = props@;
            props.push(Property { name, value });
            assert(properties_view(props@) == properties_view(before).push(
                (part_property_name(k as int), value@),
            ));
        }
        k += 1;
    }
    Ok(props)
}

impl PartsParser {
    /// A parser that has seen no part yet.
    pub fn new() -> (r: PartsParser)
        ensures
            r@ == Seq::<(int, Seq<char>)>::empty(),
    {
        let r = PartsParser { seen: Vec::new() };
        assert(r@ =~= Seq::<(int, Seq<char>)>::empty());
        r
    }

}

impl Default for PartsParser {
    fn default() -> (r: PartsParser)
        ensures
            r@ == Seq::<(int, Seq<char>)>::empty(),
    {
        PartsParser::new()
    }
}

impl PartsParser {
    fn seen_contains(&self, slot: usize, name: &[char]) -> (r: bool)
        ensures
            r == self@.contains((slot as int, name@)),
    {
        let mut i: usize = 0;
        while i < self.seen.len()
            invariant
                i <= self.seen@.len(),
                forall|j: int| 0 <= j < i ==> self@[j] != (slot as int, name@),
            decreases self.seen@.len() - i,
        {
            if self.seen[i].0 == slot && chars_eq_str(name, self.seen[i].1.as_str()) {
                assert(self@[i as int] == (slot as int, name@));
                return true;
            }
            i += 1;
        }
        false
    }

    /// Reads parts rows: see `parts_step`. On an error, the names read up to
    /// it stay seen.
    pub fn parse_rows(&mut self, rows: &Vec<Vec<String>>) -> (r: Result<PartsOutput, ParseError>)
        ensures
            final(self)@ == parts_run(parts_start(old(self)@), rows_view(rows@)).seen,
            match r {
                Ok(out) => parts_run(parts_start(old(self)@), rows_view(rows@)).error is None && out@
                    == parts_run(parts_start(old(self)@), rows_view(rows@)).sections,
                Err(e) => parts_run(parts_start(old(self)@), rows_view(rows@)).error == Some(e@),
            },
    {
        let ghost rv = rows_view(rows@);
        let ghost st0 = parts_start(self@);
        let mut out = PartsOutput { barrels: Vec::new(), magazines: Vec::new(), grips: Vec::new(), stocks: Vec::new() };
        let mut category: usize = 0;
        let mut part_type: Option<usize> = None;
        let mut i: usize = 0;
        assert(parts_view(out.barrels@) =~= Seq::<SpecPart>::empty());
        assert(parts_view(out.magazines@) =~= Seq::<SpecPart>::empty());
        assert(parts_view(out.grips@) =~= Seq::<SpecPart>::empty());
        assert(parts_view(out.stocks@) =~= Seq::<SpecPart>::empty());
        assert(out@ =~= st0.sections);
        assert(rv.take(0) == Seq::<Seq<Seq<char>>>::empty());
        while i < rows.len()
            invariant
                i <= rows@.len(),
                rv == rows_view(rows@),
                st0 == parts_start(old(self)@),
                parts_run(st0, rv.take(i as int)).error is None,
                parts_run(st0, rv.take(i as int)).category == category as int,
                category < 8,
                parts_run(st0, rv.take(i as int)).part_type == match part_type {
                    Some(t) => Some(t as int),
                    None => None::<int>,
                },
                part_type matches Some(t) ==> t < 4,
                parts_run(st0, rv.take(i as int)).seen == self@,
                parts_run(st0, rv.take(i as int)).sections == out@,
            decreases rows@.len() - i,
        {
            let ghost st = parts_run(st0, rv.take(i as int));
            let ghost row_v = rv[i as int];
            assert(rv.take(i + 1).drop_last() == rv.take(i as int));
            assert(rv.take(i + 1).last() == row_v);
            let row = &rows[i];
            assert(row_v == row@.map_values(|c: String| c@));
            if row.len() == 0 {
                i += 1;
                continue;
            }
            if row.len() != 17 {
                assert(parts_run(st0, rv.take(i + 1)).error is Some);
                proof {
                    lemma_parts_error_stays(st0, rv, i + 1);
                }
                return Err(ParseError::InvalidPartsRowLength(row.len()));
            }
            let name_chars = chars_of(row[1].as_str());
            let name = trimmed_chars(name_chars.as_slice());
            assert(name@ == trim(row_v[1]));
            if let Some((c, t)) = parse_divider(name.as_slice()) {
                category = c;
                part_type = Some(t);
                i += 1;
                continue;
            }
            let t = match part_type {
                Some(t) => t,
                None => {
                    proof {
                        lemma_parts_error_stays(st0, rv, i + 1);
                    }
                    return Err(ParseError::PartBeforeHeader);
                },
            };
            let slot = category * 4 + t;
            if self.seen_contains(slot, name.as_slice()) {
                proof {
                    lemma_parts_error_stays(st0, rv, i + 1);
                }
                return Err(ParseError::DuplicatePart(string_of(name.as_slice())));
            }
            let ghost seen_before = self@;
            self.seen.push((slot, string_of(name.as_slice())));
            assert(self@ == seen_before.push((slot as int, name@)));
            let props = match part_properties(row) {
                Ok(ps) => ps,
                Err(e) => {
                    proof {
                        lemma_parts_error_stays(st0, rv, i + 1);
                    }
                    return Err(e);
                },
            };
            let record = PartRecord {
                price_type: detect_price_type(row[0].as_str()),
                name: string_of(name.as_slice()),
                category: category_name_exec(category).to_owned(),
                properties: props,
            };
            let ghost rec_v = record@;
            let ghost before = out@;
            if t == 0 {
                out.barrels.push(record);
                assert(parts_view(out.barrels@) =~= before[0].push(rec_v));
            } else if t == 1 {
                out.magazines.push(record);
                assert(parts_view(out.magazines@) =~= before[1].push(rec_v));
            } else if t == 2 {
                out.grips.push(record);
                assert(parts_view(out.grips@) =~= before[2].push(rec_v));
            } else {
                out.stocks.push(record);
                assert(parts_view(out.stocks@) =~= before[3].push(rec_v));
            }
            assert(out@ =~= st.sections.update(t as int, st.sections[t as int].push(rec_v)));
            i += 1;
        }
        assert(rv.take(rows@.len() as int) == rv);
        Ok(out)
    }
}

/// A core read from the cores sheet.
#[derive(Debug, Clone, PartialEq)]
pub struct CoreRecord {
    pub price_type: String,
    pub name: String,
    pub category: String,
    pub pellets: Option<i64>,
    pub properties: Vec<Property>,
}

pub struct SpecCore {
    pub price_type: Seq<char>,
    pub name: Seq<char>,
    pub category: Seq<char>,
    pub pellets: Option<i64>,
    pub properties: Seq<(Seq<char>, SpecNumeric)>,
}

impl View for CoreRecord {
    type V = SpecCore;

    open spec fn view(&self) -> SpecCore {
        SpecCore {
            price_type: self.price_type@,
            name: self.name@,
            category: self.category@,
            pellets: self.pellets,
            properties: properties_view(self.properties@),
        }
    }
}

pub open spec fn cores_view(cs: Seq<CoreRecord>) -> Seq<SpecCore> {
    cs.map_values(|c: CoreRecord| c@)
}

/// Whether value column `col` of a cores row holds a range (damage, its
/// drop-off, and the four recoil columns).
pub open spec fn core_column_is_range(col: int) -> bool {
    col <= 3 || col >= 14
}

/// The properties of a cores row read from its first `k` value columns
/// (columns 2 onwards); blank cells are left out.
pub open spec fn core_props(row: Seq<Seq<char>>, k: int) -> Result<Seq<(Seq<char>, SpecNumeric)>, SpecParseError>
    decreases k,
{
    if k <= 0 {
        Ok(Seq::empty())
    } else {
        match core_props(row, k - 1) {
            Err(e) => Err(e),
            Ok(ps) => match spec_normalize(row[k + 1], core_column_is_range(k + 1)) {
                Err(e) => Err(e),
                Ok(v) => if v is Null {
                    Ok(ps)
                } else {
                    Ok(ps.push((core_property_name(k - 1), v)))
                },
            },
        }
    }
}

proof fn lemma_lone_value_column(row: Seq<Seq<char>>, col: int, v: SpecNumeric, k: int)
    requires
        row.len() >= 18,
        2 <= col <= 17,
        spec_normalize(row[col], core_column_is_range(col)) == Ok::<SpecNumeric, SpecParseError>(v),
        !(v is Null),
        forall|j: int| 2 <= j <= 17 && j != col ==> #[trigger] row[j].len() == 0,
        0 <= k <= 16,
    ensures
        core_props(row, k) == Ok::<Seq<(Seq<char>, SpecNumeric)>, SpecParseError>(
            if k + 1 >= col {
                seq![(core_property_name(col - 2), v)]
            } else {
                Seq::empty()
            },
        ),
    decreases k,
{
    if k > 0 {
        lemma_lone_value_column(row, col, v, k - 1);
        if k + 1 != col {
            assert(row[k + 1].len() == 0);
            assert(trim(row[k + 1]).len() == 0);
        }
    }
}

/// Only the damage, drop-off and recoil columns of a cores row hold ranges:
/// a plain number (with or without a unit) in any other value column, such
/// as the fire rate in column 4, is read as one value under that column's
/// name rather than refused for not being a range.
pub proof fn lemma_single_value_columns(row: Seq<Seq<char>>, col: int, d: Seq<char>, unit: Seq<char>)
    requires
        row.len() >= 18,
        4 <= col <= 13,
        is_mantissa(d),
        unit.len() == 0 || is_unit(unit),
        row[col] == d + unit,
        forall|j: int| 2 <= j <= 17 && j != col ==> #[trigger] row[j].len() == 0,
    ensures
        core_props(row, 16) == Ok::<Seq<(Seq<char>, SpecNumeric)>, SpecParseError>(
            seq![(core_property_name(col - 2), SpecNumeric::Single(SpecTerm::Number(d)))],
        ),
        col == 4 ==> core_property_name(col - 2) == "Fire_Rate"@,
{
    lemma_plain_number(d, unit);
    lemma_lone_value_column(row, col, SpecNumeric::Single(SpecTerm::Number(d)), 16);
}

/// The damage and drop-off columns (2 and 3) and the four recoil columns
/// (14 to 17) of a cores row hold ranges: `a - b` there is read as the range
/// from `a` to `b` under the column's name.
pub proof fn lemma_range_columns(row: Seq<Seq<char>>, col: int, a: Seq<char>, b: Seq<char>)
    requires
        row.len() >= 18,
        col == 2 || col == 3 || 14 <= col <= 17,
        is_mantissa(a),
        is_mantissa(b),
        row[col] == a + " - "@ + b,
        forall|j: int| 2 <= j <= 17 && j != col ==> #[trigger] row[j].len() == 0,
    ensures
        core_props(row, 16) == Ok::<Seq<(Seq<char>, SpecNumeric)>, SpecParseError>(
            seq![(core_property_name(col - 2), SpecNumeric::Range(SpecTerm::Number(a), Some(SpecTerm::Number(b))))],
        ),
        col == 2 ==> core_property_name(col - 2) == "Damage"@,
{
    lemma_ranges_read(a, b);
    lemma_lone_value_column(
        row,
        col,
        SpecNumeric::Range(SpecTerm::Number(a), Some(SpecTerm::Number(b))),
        16,
    );
}

proof fn lemma_core_props_error_stays(row: Seq<Seq<char>>, k: int, j: int)
    requires
        0 <= k <= j,
        core_props(row, k) is Err,
    ensures
        core_props(row, j) == core_props(row, k),
    decreases j - k,
{
    if k < j {
        lemma_core_props_error_stays(row, k, j - 1);
    }
}

/// The category named by a cores section header `<category> Cores`.
pub open spec fn core_header(name: Seq<char>) -> Option<int> {
    if name.len() >= 6 && name.skip(name.len() - 6) == " Cores"@ {
        category_index(name.take(name.len() - 6))
    } else {
        None
    }
}

/// Where the cores parser stands after some rows.
pub struct CoresState {
    pub category: int,
    pub cores: Seq<SpecCore>,
    pub error: Option<SpecParseError>,
}

/// Reading one cores row: blank rows are skipped, a header switches the
/// category, any other row (cut to its first 18 cells) is a core.
pub open spec fn cores_step(st: CoresState, row: Seq<Seq<char>>) -> CoresState {
    if st.error is Some || row.len() == 0 {
        st
    } else if row.len() < 18 {
        CoresState { error: Some(SpecParseError::InvalidCoresRowLength(row.len() as usize)), ..st }
    } else {
        let name = trim(row[1]);
        match core_header(name) {
            Some(c) => CoresState { category: c, ..st },
            None => match core_props(row, 16) {
                Err(e) => CoresState { error: Some(e), ..st },
                Ok(ps) => CoresState {
                    cores: st.cores.push(
                        SpecCore {
                            price_type: price_type_of(row[0]),
                            name,
                            category: category_name(st.category),
                            pellets: pellets_of(row[2]),
                            properties: ps,
                        },
                    ),
                    ..st
                },
            },
        }
    }
}

pub open spec fn cores_run(st: CoresState, rows: Seq<Seq<Seq<char>>>) -> CoresState
    decreases rows.len(),
{
    if rows.len() == 0 {
        st
    } else {
        cores_step(cores_run(st, rows.drop_last()), rows.last())
    }
}

/// The state before the first row: category AR, no core yet.
pub open spec fn cores_start() -> CoresState {
    CoresState { category: 0, cores: Seq::empty(), error: None }
}

proof fn lemma_cores_error_stays(st: CoresState, rows: Seq<Seq<Seq<char>>>, k: int)
    requires
        0 <= k <= rows.len(),
        cores_run(st, rows.take(k)).error is Some,
    ensures
        cores_run(st, rows) == cores_run(st, rows.take(k)),
    decreases rows.len() - k,
{
    if k < rows.len() {
        assert(rows.take(k + 1).drop_last() == rows.take(k));
        lemma_cores_error_stays(st, rows, k + 1);
    } else {
        assert(rows.take(k) == rows);
    }
}

fn core_properties(row: &Vec<String>) -> (r: Result<Vec<Property>, ParseError>)
    requires
        row@.len() >= 18,
    ensures
        match r {
            Ok(ps) => core_props(row@.map_values(|c: String| c@), 16) == Ok::<
                Seq<(Seq<char>, SpecNumeric)>,
                SpecParseError,
            >(properties_view(ps@)),
            Err(e) => core_props(row@.map_values(|c: String| c@), 16) == Err::<
                Seq<(Seq<char>, SpecNumeric)>,
                SpecParseError,
            >(e@),
        },
{
    let ghost rv = row@.map_values(|c: String| c@);
    let mut props: Vec<Property> = Vec::new();
    let mut k: usize = 0;
    assert(properties_view(props@) =~= Seq::<(Seq<char>, SpecNumeric)>::empty());
    while k < 16
        invariant
            k <= 16,
            row@.len() >= 18,
            rv == row@.map_values(|c: String| c@),
            core_props(rv, k as int) == Ok::<Seq<(Seq<char>, SpecNumeric)>, SpecParseError>(
                properties_view(props@),
            ),
        decreases 16 - k,
    {
        let col = k + 2;
        let value = match normalize_numeric_value(row[col].as_str(), col <= 3 || col >= 14) {
            Ok(v) => v,
            Err(e) => {
                proof {
                    lemma_core_props_error_stays(rv, k + 1, 16);
                }
                return Err(e);
            },
        };
        if !matches!(value, NumericValue::Null) {
            let name = core_property_name_exec(k).to_owned();
            let ghost before = props@;
            props.push(Property { name, value });
            assert(properties_view(props@) == properties_view(before).push(
                (core_property_name(k as int), value@),
            ));
        }
        k += 1;
    }
    Ok(props)
}

fn core_header_exec(name: &[char]) -> (r: Option<usize>)
    ensures
        match core_header(name@) {
            Some(c) => r == Some(c as usize),
            None => r is None,
        },
{
    let suffix = chars_of(" Cores");
    proof {
        reveal_strlit(" Cores");
    }
    if crate::text::ends_with_chars(name, suffix.as_slice()) {
        let prefix = slice_chars(name, 0, name.len() - 6);
        assert(prefix@ == name@.take(name@.len() - 6));
        category_index_exec(prefix.as_slice())
    } else {
        None
    }
}

/// Reads the rows of the cores sheet.
pub struct CoresParser;

impl CoresParser {
    /// Reads cores rows: see `cores_step`.
    pub fn parse_rows(&self, rows: &Vec<Vec<String>>) -> (r: Result<Vec<CoreRecord>, ParseError>)
        ensures
            match r {
                Ok(out) => cores_run(cores_start(), rows_view(rows@)).error is None && cores_view(out@)
                    == cores_run(cores_start(), rows_view(rows@)).cores,
                Err(e) => cores_run(cores_start(), rows_view(rows@)).error == Some(e@),
            },
    {
        let ghost rv = rows_view(rows@);
        let ghost st0 = cores_start();
        let mut out: Vec<CoreRecord> = Vec::new();
        let mut category: usize = 0;
        let mut i: usize = 0;
        assert(cores_view(out@) =~= Seq::<SpecCore>::empty());
        assert(rv.take(0) == Seq::<Seq<Seq<char>>>::empty());
        while i < rows.len()
            invariant
                i <= rows@.len(),
                rv == rows_view(rows@),
                st0 == cores_start(),
                cores_run(st0, rv.take(i as int)).error is None,
                cores_run(st0, rv.take(i as int)).category == category as int,
                category < 8,
                cores_run(st0, rv.take(i as int)).cores == cores_view(out@),
            decreases rows@.len() - i,
        {
            let ghost st = cores_run(st0, rv.take(i as int));
            let ghost row_v = rv[i as int];
            assert(rv.take(i + 1).drop_last() == rv.take(i as int));
            assert(rv.take(i + 1).last() == row_v);
            let row = &rows[i];
            assert(row_v == row@.map_values(|c: String| c@));
            if row.len() == 0 {
                i += 1;
                continue;
            }
            if row.len() < 18 {
                assert(cores_run(st0, rv.take(i + 1)).error is Some);
                proof {
                    lemma_cores_error_stays(st0, rv, i + 1);
                }
                return Err(ParseError::InvalidCoresRowLength(row.len()));
            }
            let name_chars = chars_of(row[1].as_str());
            let name = trimmed_chars(name_chars.as_slice());
            assert(name@ == trim(row_v[1]));
            if let Some(c) = core_header_exec(name.as_slice()) {
                category = c;
                i += 1;
                continue;
            }
            let props = match core_properties(row) {
                Ok(ps) => ps,
                Err(e) => {
                    assert(cores_run(st0, rv.take(i + 1)).error is Some);
                    proof {
                        lemma_cores_error_stays(st0, rv, i + 1);
                    }
                    return Err(e);
                },
            };
            let damage_cell = chars_of(row[2].as_str());
            let record = CoreRecord {
                price_type: detect_price_type(row[0].as_str()),
                name: string_of(name.as_slice()),
                category: category_name_exec(category).to_owned(),
                pellets: extract_pellets(damage_cell.as_slice()),
                properties: props,
            };
            let ghost before = cores_view(out@);
            out.push(record);
            assert(cores_view(out@) =~= before.push(record@));
            i += 1;
        }
        assert(rv.take(rows@.len() as int) == rv);
        Ok(out)
    }
}

} // verus!
