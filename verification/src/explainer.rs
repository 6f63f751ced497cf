//! The index work behind the explainer export of a novelty search run: the
//! export's metadata and file name, which individual counts as the winner,
//! and the winner's ancestry through the recorded selections.
use vstd::prelude::*;
use std::path::PathBuf;
use std::time::{Duration, SystemTime};

verus! {

#[verifier::external_type_specification]
#[verifier::external_body]
pub struct ExSystemTime(SystemTime);

#[verifier::external_type_specification]
#[verifier::external_body]
pub struct ExPathBuf(PathBuf);

/// Version number of the export format.
pub const EXPORT_VERSION: u32 = 1;

/// Metadata of an export.
pub struct ExportMeta {
    pub version: u32,
    pub exported_at_unix: u64,
}

/// Reads the system clock, through `std::time::SystemTime::now`.
/// Nothing is stated of the result: it is the time.
#[verifier::external_body]
fn system_time_now() -> SystemTime {
    SystemTime::now()
}

/// Time elapsed from the Unix epoch to `t`, through
/// `SystemTime::duration_since(UNIX_EPOCH)`; `None` when `t` lies before the
/// epoch (the call's error). Nothing more is stated of the result.
#[verifier::external_body]
fn duration_since_epoch(t: &SystemTime) -> Option<Duration> {
    t.duration_since(std::time::UNIX_EPOCH).ok()
}

/// Whole seconds of a duration, through `Duration::as_secs`. Nothing is
/// stated of the result.
#[verifier::external_body]
fn whole_seconds(d: &Duration) -> u64 {
    d.as_secs()
}

/// Appends a character to a string, through `String::push`.
#[verifier::external_body]
fn push_char(s: &mut String, c: char)
    ensures
        final(s)@ == old(s)@.push(c),
{
    s.push(c)
}

/// The path that `PathBuf::from` makes of a string.
pub uninterp spec fn path_named(name: Seq<char>) -> PathBuf;

/// Makes a path from a string, through `PathBuf::from`.
#[verifier::external_body]
fn path_from(name: String) -> (p: PathBuf)
    ensures
        p == path_named(name@),
{
    PathBuf::from(name)
}

/// Whole seconds since the Unix epoch by the system clock, or 0 when the
/// clock reads a time before the epoch.
pub fn unix_seconds_now() -> u64 {
    let now = system_time_now();
    match duration_since_epoch(&now) {
        Some(d) => whole_seconds(&d),
        None => 0,
    }
}

impl ExportMeta {
    /// Metadata of an export made at the given time.
    pub fn new(exported_at_unix: u64) -> (m: Self)
        ensures
            m.version == EXPORT_VERSION,
            m.exported_at_unix == exported_at_unix,
    {
        ExportMeta { version: EXPORT_VERSION, exported_at_unix }
    }

    /// Metadata of an export made now.
    pub fn now() -> (m: Self)
        ensures
            m.version == EXPORT_VERSION,
    {
        ExportMeta::new(unix_seconds_now())
    }
}

/// The character of a decimal digit.
pub open spec fn digit_char(d: int) -> char {
    if d == 0 {
        '0'
    } else if d == 1 {
        '1'
    } else if d == 2 {
        '2'
    } else if d == 3 {
        '3'
    } else if d == 4 {
        '4'
    } else if d == 5 {
        '5'
    } else if d == 6 {
        '6'
    } else if d == 7 {
        '7'
    } else if d == 8 {
        '8'
    } else {
        '9'
    }
}

/// Decimal notation of a natural number, without leading zeros.
pub open spec fn decimal(n: nat) -> Seq<char>
    decreases n,
{
    if n < 10 {
        seq![digit_char(n as int)]
    } else {
        decimal(n / 10).push(digit_char((n % 10) as int))
    }
}

/// `explainer-run-<secs>.json`.
pub open spec fn spec_export_file_name(unix_secs: u64) -> Seq<char> {
    seq!['e', 'x', 'p', 'l', 'a', 'i', 'n', 'e', 'r', '-', 'r', 'u', 'n', '-'] + decimal(unix_secs as nat)
        + seq!['.', 'j', 's', 'o', 'n']
}

fn digit(d: u64) -> (c: char)
    requires
        d < 10,
    ensures
        c == digit_char(d as int),
{
    match d {
        0 => '0',
        1 => '1',
        2 => '2',
        3 => '3',
        4 => '4',
        5 => '5',
        6 => '6',
        7 => '7',
        8 => '8',
        _ => '9',
    }
}

fn push_decimal(s: &mut String, n: u64)
    ensures
        final(s)@ == old(s)@ + decimal(n as nat),
    decreases n,
{
    if n >= 10 {
        push_decimal(s, n / 10);
    }
    push_char(s, digit(n % 10));
    proof {
        if n >= 10 {
            assert(final(s)@ =~= old(s)@ + decimal(n as nat));
        } else {
            assert(final(s)@ =~= old(s)@ + decimal(n as nat));
        }
    }
}

fn push_str_chars(s: &mut String, chars: &[char])
    ensures
        final(s)@ == old(s)@ + chars@,
{
    let mut i: usize = 0;
    while i < chars.len()
        invariant
            i <= chars@.len(),
            s@ == old(s)@ + chars@.take(i as int),
        decreases chars@.len() - i,
    {
        push_char(s, chars[i]);
        assert(chars@.take(i + 1) =~= chars@.take(i as int).push(chars@[i as int]));
        i += 1;
    }
    assert(chars@.take(chars@.len() as int) =~= chars@);
}

/// File name of an export made at the given time:
/// `explainer-run-<secs>.json`.
pub fn export_file_name(unix_secs: u64) -> (name: String)
    ensures
        name@ == spec_export_file_name(unix_secs),
{
    let mut name = String::new();
    let prefix = ['e', 'x', 'p', 'l', 'a', 'i', 'n', 'e', 'r', '-', 'r', 'u', 'n', '-'];
    push_str_chars(&mut name, &prefix);
    push_decimal(&mut name, unix_secs);
    let suffix = ['.', 'j', 's', 'o', 'n'];
    push_str_chars(&mut name, &suffix);
    assert(prefix@ =~= seq!['e', 'x', 'p', 'l', 'a', 'i', 'n', 'e', 'r', '-', 'r', 'u', 'n', '-']);
    assert(suffix@ =~= seq!['.', 'j', 's', 'o', 'n']);
    assert(name@ =~= spec_export_file_name(unix_secs));
    name
}

/// Suggested export path: `explainer-run-<secs>.json` in the working
/// directory, `<secs>` being the current Unix time in seconds (0 when the
/// clock reads a time before the epoch).
pub fn default_export_path() -> (path: PathBuf)
    ensures
        exists|secs: u64| path == path_named(#[trigger] spec_export_file_name(secs)),
{
    let secs = unix_seconds_now();
    let path = path_from(export_file_name(secs));
    assert(path == path_named(spec_export_file_name(secs)));
    path
}

/// The selections recorded for one generation of a novelty search run.
pub struct SelectionRecord {
    /// Number of individuals of the generation.
    pub population: usize,
    /// The individual copied unchanged into the next generation as its
    /// individual 0.
    pub elite_idx: usize,
    /// For `i >= 1`, individual `i` of the next generation is a mutated copy
    /// of individual `tournament_winners[i - 1]` of this one.
    pub tournament_winners: Vec<usize>,
}

/// One ancestor of a lineage.
#[derive(Clone, Copy, Debug, PartialEq, Eq)]
pub struct LineageStep {
    pub generation: u32,
    pub idx: usize,
    /// Whether this individual is the unmutated elite carried over from the
    /// previous generation.
    pub from_elite: bool,
}

/// Individual `i` of generation `g` (counted from 1) exists in the records.
pub open spec fn recorded(records: Seq<SelectionRecord>, g: int, i: int) -> bool {
    1 <= g <= records.len() && 0 <= i < records[g - 1].population
}

/// The parent of individual `i` of generation `g >= 2`, in generation
/// `g - 1`, and whether `i` is the unmutated elite; `None` when the record
/// of `g - 1` names no parent for `i`.
pub open spec fn parent_of(records: Seq<SelectionRecord>, g: int, i: int) -> Option<(int, bool)> {
    let prev = records[g - 2];
    if i == 0 {
        Some((prev.elite_idx as int, true))
    } else if i - 1 < prev.tournament_winners@.len() {
        Some((prev.tournament_winners@[i - 1] as int, false))
    } else {
        None
    }
}

/// The lineage entry of individual `i` of generation `g`; it is marked as
/// the unmutated elite carried over from the previous generation when it
/// is individual 0 of a generation after the first.
pub open spec fn lineage_entry(g: int, i: int) -> LineageStep {
    LineageStep { generation: g as u32, idx: i as usize, from_elite: g > 1 && i == 0 }
}

/// The ancestry of individual `i` of generation `g`, oldest first, ending
/// with that individual: followed back through the recorded selections
/// while the parent is recorded, down to generation 1 at the most.
pub open spec fn ancestry(records: Seq<SelectionRecord>, g: int, i: int) -> Seq<LineageStep>
    decreases g,
{
    if !recorded(records, g, i) {
        Seq::empty()
    } else if g <= 1 {
        seq![lineage_entry(g, i)]
    } else {
        match parent_of(records, g, i) {
            Some((p, _)) => ancestry(records, g - 1, p).push(lineage_entry(g, i)),
            None => seq![lineage_entry(g, i)],
        }
    }
}

/// The winner of a run: the individual whose trajectory was kept, if the
/// records reach it; `None` before the first generation.
pub open spec fn spec_winner(records: Seq<SelectionRecord>, generation: u32, idx: usize) -> Option<(u32, usize)> {
    if recorded(records, generation as int, idx as int) {
        Some((generation, idx))
    } else {
        None
    }
}

/// Where the winner stands in the records: `(generation, idx)` when that
/// individual was recorded, `None` otherwise (no generation run yet, or a
/// position outside the records).
pub fn winner_position(records: &Vec<SelectionRecord>, closest_generation: u32, closest_individual_idx: usize) -> (w: Option<(u32, usize)>)
    ensures
        w == spec_winner(records@, closest_generation, closest_individual_idx),
{
    if records.len() == 0 {
        return None;
    }
    let generation = closest_generation;
    if generation == 0 {
        return None;
    }
    if generation as usize - 1 >= records.len() {
        return None;
    }
    if closest_individual_idx >= records[generation as usize - 1].population {
        return None;
    }
    Some((generation, closest_individual_idx))
}

/// Any individual of the records can be the winner: the winner position
/// is `Some((g, idx))` exactly when generation `g` (counted from 1) is
/// recorded and has an individual `idx`, and `None` otherwise.
pub proof fn winner_is_any_recorded_individual(records: Seq<SelectionRecord>, g: u32, idx: usize)
    ensures
        1 <= g <= records.len() && idx < records[g - 1].population ==> spec_winner(records, g, idx) == Some(
            (g, idx),
        ),
        !(1 <= g <= records.len() && idx < records[g - 1].population) ==> spec_winner(records, g, idx)
            == None::<(u32, usize)>,
{
}

/// Generations recorded later do not change the winner position of an
/// individual already recorded.
pub proof fn winner_unchanged_by_later_records(
    records: Seq<SelectionRecord>,
    later: Seq<SelectionRecord>,
    g: u32,
    idx: usize,
)
    requires
        1 <= g <= records.len(),
        idx < records[g - 1].population,
    ensures
        spec_winner(records + later, g, idx) == spec_winner(records, g, idx),
        spec_winner(records + later, g, idx) == Some((g, idx)),
{
    assert((records + later)[g - 1] == records[g - 1]);
}

/// The lineage of individual `start_idx` of generation `start_gen`: from
/// the ancestor in generation 1 (or the oldest one the records reach) to
/// the individual itself, following each generation's elite and tournament
/// winners back. An entry is marked `from_elite` when it is the unmutated
/// elite carried over from the previous generation.
pub fn build_lineage(records: &Vec<SelectionRecord>, start_gen: u32, start_idx: usize) -> (lineage: Vec<LineageStep>)
    requires
        1 <= start_gen,
    ensures
        lineage@ == ancestry(records@, start_gen as int, start_idx as int),
{
    let mut back: Vec<LineageStep> = Vec::new();
    let mut cur_gen: usize = start_gen as usize;
    let mut cur_idx: usize = start_idx;
    let mut done = false;
    while !done
        invariant
            1 <= cur_gen <= start_gen,
            ancestry(records@, start_gen as int, start_idx as int) == if done {
                back@.reverse()
            } else {
                ancestry(records@, cur_gen as int, cur_idx as int) + back@.reverse()
            },
        decreases cur_gen, if done { 0int } else { 1int },
    {
        let ghost rest = ancestry(records@, cur_gen as int, cur_idx as int);
        if cur_gen - 1 >= records.len() || cur_idx >= records[cur_gen - 1].population {
            assert(rest =~= Seq::<LineageStep>::empty());
            assert(Seq::<LineageStep>::empty() + back@.reverse() =~= back@.reverse());
            done = true;
        } else {
            let ghost back0 = back@;
            let entry = LineageStep { generation: cur_gen as u32, idx: cur_idx, from_elite: cur_gen > 1 && cur_idx == 0 };
            assert(entry == lineage_entry(cur_gen as int, cur_idx as int));
            back.push(entry);
            assert(back@.reverse() =~= seq![entry] + back0.reverse());
            if cur_gen == 1 {
                assert(rest =~= seq![entry]);
                done = true;
            } else {
                let prev = &records[cur_gen - 2];
                if cur_idx == 0 {
                    let p = prev.elite_idx;
                    assert(rest =~= ancestry(records@, cur_gen - 1, p as int).push(entry));
                    assert(ancestry(records@, cur_gen - 1, p as int).push(entry) + back0.reverse()
                        =~= ancestry(records@, cur_gen - 1, p as int) + back@.reverse());
                    cur_idx = p;
                    cur_gen = cur_gen - 1;
                } else if cur_idx - 1 < prev.tournament_winners.len() {
                    let p = prev.tournament_winners[cur_idx - 1];
                    assert(rest =~= ancestry(records@, cur_gen - 1, p as int).push(entry));
                    assert(ancestry(records@, cur_gen - 1, p as int).push(entry) + back0.reverse()
                        =~= ancestry(records@, cur_gen - 1, p as int) + back@.reverse());
                    cur_idx = p;
                    cur_gen = cur_gen - 1;
                } else {
                    assert(rest =~= seq![entry]);
                    done = true;
                }
            }
        }
    }
    let mut lineage: Vec<LineageStep> = Vec::new();
    let mut k: usize = back.len();
    while k > 0
        invariant
            k <= back@.len(),
            lineage@ == back@.subrange(k as int, back@.len() as int).reverse(),
        decreases k,
    {
        k -= 1;
        lineage.push(back[k]);
        assert(lineage@ =~= back@.subrange(k as int, back@.len() as int).reverse());
    }
    assert(back@.subrange(0, back@.len() as int) =~= back@);
    lineage
}

/// Every recorded individual of a generation after the first has a
/// recorded parent: the elite and the tournament winners of each generation
/// are individuals of it, and there is a winner for every individual but
/// the first of the next generation.
pub open spec fn selections_consistent(records: Seq<SelectionRecord>) -> bool {
    forall|g: int, i: int|
        #![trigger recorded(records, g, i)]
        2 <= g <= records.len() && recorded(records, g, i) ==> match parent_of(records, g, i) {
            Some((p, _)) => recorded(records, g - 1, p),
            None => false,
        }
}

/// A lineage is empty exactly when its start is not recorded, and
/// otherwise ends with the start itself.
pub proof fn lineage_ends_with_start(records: Seq<SelectionRecord>, g: u32, i: usize)
    ensures
        recorded(records, g as int, i as int) <==> ancestry(records, g as int, i as int).len() > 0,
        recorded(records, g as int, i as int) ==> ancestry(records, g as int, i as int).last() == lineage_entry(
            g as int,
            i as int,
        ),
{
}

/// Each entry of a lineage is recorded, and each entry after the first is
/// the child, one generation later, of the entry before it, by the recorded
/// elite selection (exactly when it is marked `from_elite`) or tournament
/// selection.
pub proof fn lineage_links(records: Seq<SelectionRecord>, g: u32, i: usize)
    ensures
        ({
            let a = ancestry(records, g as int, i as int);
            &&& forall|k: int| 0 <= k < a.len() ==> recorded(records, a[k].generation as int, #[trigger] a[k].idx as int)
            &&& forall|k: int|
                0 <= k < a.len() - 1 ==> {
                    &&& (#[trigger] a[k + 1]).generation == a[k].generation + 1
                    &&& parent_of(records, a[k + 1].generation as int, a[k + 1].idx as int) == Some(
                        (a[k].idx as int, a[k + 1].from_elite),
                    )
                }
        }),
    decreases g,
{
    let a = ancestry(records, g as int, i as int);
    if recorded(records, g as int, i as int) && g > 1 {
        match parent_of(records, g as int, i as int) {
            Some((p, pe)) => {
                if recorded(records, g - 1, p) {
                    lineage_links(records, (g - 1) as u32, p as usize);
                    let b = ancestry(records, g - 1, p);
                    lineage_ends_with_start(records, (g - 1) as u32, p as usize);
                    assert(a == b.push(lineage_entry(g as int, i as int)));
                    assert forall|k: int| 0 <= k < a.len() - 1 implies {
                        &&& (#[trigger] a[k + 1]).generation == a[k].generation + 1
                        &&& parent_of(records, a[k + 1].generation as int, a[k + 1].idx as int) == Some(
                            (a[k].idx as int, a[k + 1].from_elite),
                        )
                    } by {
                        if k + 1 < b.len() {
                            assert(a[k] == b[k]);
                            assert(a[k + 1] == b[k + 1]);
                        } else {
                            assert(a[k] == b.last());
                            assert(a[k + 1] == lineage_entry(g as int, i as int));
                        }
                    }
                    assert forall|k: int| 0 <= k < a.len() implies recorded(records, a[k].generation as int, #[trigger] a[k].idx as int) by {
                        if k < b.len() {
                            assert(a[k] == b[k]);
                        }
                    }
                }
            },
            None => {},
        }
    }
}

/// When every generation records a parent for each of its individuals, the
/// lineage of a recorded individual of generation `g` has exactly `g`
/// entries and starts in generation 1.
pub proof fn lineage_reaches_first_generation(records: Seq<SelectionRecord>, g: u32, i: usize)
    requires
        selections_consistent(records),
        recorded(records, g as int, i as int),
    ensures
        ancestry(records, g as int, i as int).len() == g,
        ancestry(records, g as int, i as int)[0].generation == 1,
    decreases g,
{
    if g > 1 {
        assert(recorded(records, g as int, i as int));
        let (p, pe) = parent_of(records, g as int, i as int).unwrap();
        lineage_reaches_first_generation(records, (g - 1) as u32, p as usize);
    }
}

} // verus!
