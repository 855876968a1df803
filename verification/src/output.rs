//! What the reports show of a scan result: which file of a group is marked
//! as kept, the rows of the CSV report, and modification times in seconds.
use vstd::prelude::*;
use vstd::string::StringSliceAdditionalSpecFns;
use vstd::utf8::{decode_utf8, encode_utf8_decode_utf8, valid_utf8};

use crate::cli::KeepStrategy;
use crate::grouper::duplicate_group::keeper_position;
use crate::grouper::DuplicateGroup;
use crate::paths::{components, same_path};
use crate::text::utf8_str;
use crate::{ScanResult, ScanStats};

verus! {

/// Nanoseconds in a second.
pub const NANOS_PER_SEC: i128 = 1_000_000_000;

/// Whole seconds since the Unix epoch of a modification time given in
/// nanoseconds; none for a time before the epoch.
pub open spec fn spec_modified_secs(modified: i128) -> Option<u64> {
    if modified < 0 {
        None
    } else {
        Some((modified / NANOS_PER_SEC) as u64)
    }
}

/// The modification time in whole seconds since the Unix epoch, or `None`
/// when it lies before the epoch.
pub fn modified_secs(modified: i128) -> (r: Option<u64>)
    requires
        modified / NANOS_PER_SEC <= u64::MAX,
    ensures
        r == spec_modified_secs(modified),
{
    if modified < 0 {
        None
    } else {
        Some((modified / NANOS_PER_SEC) as u64)
    }
}

/// For each file of the group, whether the report marks it as kept: its path
/// equals, component by component, the path of the file that `strategy`
/// keeps.
pub fn keeper_marks(group: &DuplicateGroup, strategy: KeepStrategy) -> (r: Vec<bool>)
    ensures
        r@.len() == group.files@.len(),
        forall|i: int|
            0 <= i < r@.len() ==> r@[i] == (components(group.files@[i].path@) == components(
                group.files@[keeper_position(group.files@, strategy)].path@,
            )),
{
    let mut out: Vec<bool> = Vec::new();
    let keeper = group.select_keeper(strategy);
    let n = group.files.len();
    let mut i: usize = 0;
    while i < n
        invariant
            n == group.files@.len(),
            i <= n,
            out@.len() == i,
            keeper is None <==> n == 0,
            keeper matches Some(k) ==> *k == group.files@[keeper_position(group.files@, strategy)],
            forall|j: int|
                0 <= j < i ==> out@[j] == (components(group.files@[j].path@) == components(
                    group.files@[keeper_position(group.files@, strategy)].path@,
                )),
        decreases n - i,
    {
        let mark = match keeper {
            Some(k) => same_path(group.files[i].path.as_slice(), k.path.as_slice()),
            None => false,
        };
        out.push(mark);
        i += 1;
    }
    out
}

/// One row of the CSV report: a file of a duplicate group.
#[derive(Debug, Clone)]
pub struct CsvRecord {
    /// Position of the group in the result, counted from 1.
    pub group: u64,
    /// The group's digest, when one was computed.
    pub hash: Option<[u8; 32]>,
    /// The group's file size.
    pub size: u64,
    pub path: Vec<u8>,
    /// Modification time in seconds since the Unix epoch, when not before it.
    pub modified: Option<u64>,
}

/// The number of files in the groups of `gs`.
pub open spec fn files_in(gs: Seq<DuplicateGroup>) -> nat
    decreases gs.len(),
{
    if gs.len() == 0 {
        0
    } else {
        files_in(gs.drop_last()) + gs.last().files@.len()
    }
}

/// Every modification time in `gs` has a number of seconds that fits in a
/// `u64`.
pub open spec fn times_fit(gs: Seq<DuplicateGroup>) -> bool {
    forall|g: int, f: int|
        0 <= g < gs.len() && 0 <= f < gs[g].files@.len() ==> #[trigger] gs[g].files@[f].modified
            / NANOS_PER_SEC <= u64::MAX
}

/// `rec` is the CSV row of file `f` of group `g` (both counted from 0).
pub open spec fn is_row_of(rec: CsvRecord, gs: Seq<DuplicateGroup>, g: int, f: int) -> bool {
    &&& rec.group == g + 1
    &&& rec.hash == gs[g].hash
    &&& rec.size == gs[g].size
    &&& rec.path@ == gs[g].files@[f].path@
    &&& rec.modified == spec_modified_secs(gs[g].files@[f].modified)
}

proof fn lemma_files_in_prefix(gs: Seq<DuplicateGroup>, i: int)
    requires
        0 <= i <= gs.len(),
    ensures
        files_in(gs.subrange(0, i)) <= files_in(gs),
    decreases gs.len() - i,
{
    if i < gs.len() {
        lemma_files_in_prefix(gs, i + 1);
        assert(gs.subrange(0, i + 1).drop_last() =~= gs.subrange(0, i));
    } else {
        assert(gs.subrange(0, i) =~= gs);
    }
}

/// Whether `csv_records` can describe `result`: every modification time
/// has a number of seconds that fits in a `u64`, and the groups can be
/// numbered in a `u64`.
pub fn csv_records_fit(result: &ScanResult) -> (r: bool)
    ensures
        r == (times_fit(result.groups@) && result.groups@.len() < u64::MAX),
{
    let ghost gs = result.groups@;
    if result.groups.len() as u64 == u64::MAX {
        return false;
    }
    let mut g: usize = 0;
    while g < result.groups.len()
        invariant
            gs == result.groups@,
            g <= gs.len(),
            forall|h: int, f: int|
                0 <= h < g && 0 <= f < gs[h].files@.len() ==> #[trigger] gs[h].files@[f].modified
                    / NANOS_PER_SEC <= u64::MAX,
        decreases gs.len() - g,
    {
        let group = &result.groups[g];
        let mut f: usize = 0;
        while f < group.files.len()
            invariant
                gs == result.groups@,
                g < gs.len(),
                *group == gs[g as int],
                f <= group.files@.len(),
                forall|h: int, k: int|
                    0 <= h < g && 0 <= k < gs[h].files@.len() ==> #[trigger] gs[h].files@[k].modified
                        / NANOS_PER_SEC <= u64::MAX,
                forall|k: int|
                    0 <= k < f ==> #[trigger] gs[g as int].files@[k].modified / NANOS_PER_SEC
                        <= u64::MAX,
            decreases group.files@.len() - f,
        {
            if group.files[f].modified / NANOS_PER_SEC > u64::MAX as i128 {
                return false;
            }
            f += 1;
        }
        g += 1;
    }
    true
}

/// The rows of the CSV report, group by group in the result's order and, in
/// each group, file by file: row `files_in(groups[..g]) + f` describes file
/// `f` of group `g`.
pub fn csv_records(result: &ScanResult) -> (r: Vec<CsvRecord>)
    requires
        times_fit(result.groups@),
        result.groups@.len() < u64::MAX,
    ensures
        r@.len() == files_in(result.groups@),
        forall|g: int, f: int|
            0 <= g < result.groups@.len() && 0 <= f < result.groups@[g].files@.len() ==> is_row_of(
                #[trigger] r@[files_in(result.groups@.subrange(0, g)) + f],
                result.groups@,
                g,
                f,
            ),
{
    let ghost gs = result.groups@;
    let mut out: Vec<CsvRecord> = Vec::new();
    let mut g: usize = 0;
    while g < result.groups.len()
        invariant
            gs == result.groups@,
            times_fit(gs),
            gs.len() < u64::MAX,
            g <= gs.len(),
            out@.len() == files_in(gs.subrange(0, g as int)),
            forall|h: int, f: int|
                0 <= h < g && 0 <= f < gs[h].files@.len() ==> is_row_of(
                    #[trigger] out@[files_in(gs.subrange(0, h)) + f],
                    gs,
                    h,
                    f,
                ),
        decreases gs.len() - g,
    {
        let group = &result.groups[g];
        let base = out.len();
        let ghost before = out@;
        proof {
            assert(gs.subrange(0, g + 1).drop_last() =~= gs.subrange(0, g as int));
        }
        let mut f: usize = 0;
        while f < group.files.len()
            invariant
                gs == result.groups@,
                times_fit(gs),
                gs.len() < u64::MAX,
                g < gs.len(),
                *group == gs[g as int],
                base == before.len(),
                f <= group.files@.len(),
                out@.len() == base + f,
                forall|j: int| 0 <= j < base ==> out@[j] == before[j],
                forall|k: int| 0 <= k < f ==> is_row_of(#[trigger] out@[base + k], gs, g as int, k),
            decreases group.files@.len() - f,
        {
            let file = &group.files[f];
            proof {
                assert(gs[g as int].files@[f as int].modified / NANOS_PER_SEC <= u64::MAX);
            }
            let rec = CsvRecord {
                group: g as u64 + 1,
                hash: group.hash,
                size: group.size,
                path: file.path.clone(),
                modified: modified_secs(file.modified),
            };
            assert(rec.path@ =~= file.path@);
            out.push(rec);
            f += 1;
        }
        proof {
            assert forall|h: int, k: int|
                0 <= h < g + 1 && 0 <= k < gs[h].files@.len() implies is_row_of(
                #[trigger] out@[files_in(gs.subrange(0, h)) + k],
                gs,
                h,
                k,
            ) by {
                if h < g {
                    lemma_files_in_prefix(gs.subrange(0, g as int), h);
                    assert(gs.subrange(0, g as int).subrange(0, h) =~= gs.subrange(0, h));
                    assert(files_in(gs.subrange(0, h)) + k < base) by {
                        lemma_files_in_prefix(gs.subrange(0, h + 1), h);
                        assert(gs.subrange(0, h + 1).drop_last() =~= gs.subrange(0, h));
                        lemma_files_in_prefix(gs.subrange(0, g as int), h + 1);
                        assert(gs.subrange(0, g as int).subrange(0, h + 1) =~= gs.subrange(0, h + 1));
                    }
                    assert(out@[files_in(gs.subrange(0, h)) + k] == before[files_in(
                        gs.subrange(0, h),
                    ) + k]);
                } else {
                    assert(out@[base + k] == out@[files_in(gs.subrange(0, h)) + k]);
                }
            }
        }
        g += 1;
    }
    assert(gs.subrange(0, g as int) =~= gs);
    out
}

/// The character of the decimal digit `d`.
pub open spec fn digit_char(d: nat) -> char {
    (48 + d) as char
}

/// The decimal digits of `n`, without leading zeros.
pub open spec fn decimal_digits(n: nat) -> Seq<char>
    decreases n,
{
    if n < 10 {
        seq![digit_char(n)]
    } else {
        decimal_digits(n / 10).push(digit_char(n % 10))
    }
}

/// The lower-case character of the hexadecimal digit `d`.
pub open spec fn hex_digit(d: nat) -> char {
    if d < 10 {
        (48 + d) as char
    } else {
        (87 + d) as char
    }
}

/// Two lower-case hexadecimal digits per byte, the high one first.
pub open spec fn hex_chars(b: Seq<u8>) -> Seq<char>
    decreases b.len(),
{
    if b.len() == 0 {
        Seq::empty()
    } else {
        hex_chars(b.drop_last()) + seq![
            hex_digit((b.last() / 16) as nat),
            hex_digit((b.last() % 16) as nat),
        ]
    }
}

/// What `humansize::format_size` with the `BINARY` options shows for a
/// number of bytes.
pub uninterp spec fn binary_size_text(bytes: u64) -> Seq<char>;

/// What `String::from_utf8_lossy` makes of some bytes.
pub uninterp spec fn lossy_decode(bytes: Seq<u8>) -> Seq<char>;

/// Calls `humansize::format_size` with the `BINARY` options; the text is
/// named, not described.
#[verifier::external_body]
pub(crate) fn format_binary_size(bytes: u64) -> (r: String)
    ensures
        r@ == binary_size_text(bytes),
{
    humansize::format_size(bytes, humansize::BINARY)
}

/// Calls `u64::to_string`: the decimal digits of the number.
#[verifier::external_body]
pub(crate) fn decimal_text(n: u64) -> (r: String)
    ensures
        r@ == decimal_digits(n as nat),
{
    n.to_string()
}

/// Calls `hex::encode`: two lower-case hexadecimal digits per byte, the
/// high one first.
#[verifier::external_body]
pub(crate) fn hex_text(bytes: &[u8; 32]) -> (r: String)
    ensures
        r@ == hex_chars(bytes@),
{
    hex::encode(bytes)
}

/// Calls `String::from_utf8_lossy`: well-formed UTF-8 is decoded as it is;
/// what ill-formed bytes become is named, not described.
#[verifier::external_body]
pub(crate) fn lossy_text(bytes: &[u8]) -> (r: String)
    ensures
        r@ == lossy_decode(bytes@),
        valid_utf8(bytes@) ==> r@ == decode_utf8(bytes@),
{
    String::from_utf8_lossy(bytes).into_owned()
}

/// The texts of a CSV row.
#[derive(Debug)]
pub struct CsvFields {
    pub group: String,
    pub hash: String,
    pub size: String,
    pub path: String,
    pub modified: String,
}

/// The texts of a CSV row: numbers in decimal, the digest in lower-case
/// hexadecimal (empty without one), the path decoded from UTF-8 (ill-formed
/// bytes replaced), the modification time empty when unknown.
pub fn csv_fields(rec: &CsvRecord) -> (r: CsvFields)
    ensures
        r.group@ == decimal_digits(rec.group as nat),
        rec.hash matches Some(h) ==> r.hash@ == hex_chars(h@),
        rec.hash is None ==> r.hash@ == Seq::<char>::empty(),
        r.size@ == decimal_digits(rec.size as nat),
        r.path@ == lossy_decode(rec.path@),
        rec.modified matches Some(m) ==> r.modified@ == decimal_digits(m as nat),
        rec.modified is None ==> r.modified@ == Seq::<char>::empty(),
{
    CsvFields {
        group: decimal_text(rec.group),
        hash: match &rec.hash {
            Some(h) => hex_text(h),
            None => String::new(),
        },
        size: decimal_text(rec.size),
        path: lossy_text(rec.path.as_slice()),
        modified: match rec.modified {
            Some(m) => decimal_text(m),
            None => String::new(),
        },
    }
}

/// The digest of a group as the JSON report shows it: lower-case
/// hexadecimal, when there is one.
pub fn digest_hex(hash: Option<[u8; 32]>) -> (r: Option<String>)
    ensures
        r is Some <==> hash is Some,
        hash matches Some(h) ==> r->0@ == hex_chars(h@),
{
    match hash {
        Some(h) => Some(hex_text(&h)),
        None => None,
    }
}

/// A path as the JSON report shows it: its text when it is well-formed
/// UTF-8, else `<invalid utf8>`.
pub fn json_path(path: &[u8]) -> (r: String)
    ensures
        valid_utf8(path@) ==> r@ == decode_utf8(path@),
        !valid_utf8(path@) ==> r@ == "<invalid utf8>"@,
{
    match utf8_str(path) {
        Some(t) => {
            proof {
                encode_utf8_decode_utf8(t@);
            }
            t.to_owned()
        },
        None => "<invalid utf8>".to_owned(),
    }
}

/// The texts of a group's heading in the human report: its position, its
/// number of files and its file size.
#[derive(Debug)]
pub struct GroupHeading {
    pub index: String,
    pub files: String,
    pub size: String,
}

/// The heading of the group at `index` (counted from 1).
pub fn group_heading(group: &DuplicateGroup, index: u64) -> (r: GroupHeading)
    ensures
        r.index@ == decimal_digits(index as nat),
        r.files@ == decimal_digits(group.files@.len()),
        r.size@ == binary_size_text(group.size),
{
    GroupHeading {
        index: decimal_text(index),
        files: decimal_text(group.files.len() as u64),
        size: format_binary_size(group.size),
    }
}

/// The texts of the summary of the human report.
#[derive(Debug)]
pub struct SummaryTexts {
    pub groups: String,
    pub files: String,
    pub wasted: String,
}

/// The summary of a scan: the numbers of groups and of removable copies,
/// and the wasted bytes as a size.
pub fn summary_texts(stats: &ScanStats) -> (r: SummaryTexts)
    ensures
        r.groups@ == decimal_digits(stats.duplicate_groups as nat),
        r.files@ == decimal_digits(stats.duplicate_files as nat),
        r.wasted@ == binary_size_text(stats.wasted_bytes),
{
    SummaryTexts {
        groups: decimal_text(stats.duplicate_groups),
        files: decimal_text(stats.duplicate_files),
        wasted: format_binary_size(stats.wasted_bytes),
    }
}

/// A count and a number of bytes as the action summaries show them: the
/// count in decimal, the bytes as a size.
pub fn count_and_size(count: u64, bytes: u64) -> (r: (String, String))
    ensures
        r.0@ == decimal_digits(count as nat),
        r.1@ == binary_size_text(bytes),
{
    (decimal_text(count), format_binary_size(bytes))
}

} // verus!
