//! The batch: every group of a roster substituted into the template, each
//! with its own output path.

use vstd::prelude::*;
use crate::engine::{SubstitutionError, is_empty_group, replace_svg, substituted};
use crate::group::{group_count, group_end, group_records};
use crate::record::Record;
use crate::roster::{
    RosterError, RosterForm, keyed_outcome, load_keyed, load_positional, positional_outcome,
    records_result,
};
use crate::text::{chars_of, decimal, decimal_chars, lemma_decimal_injective, push_all, string_of};

verus! {

/// What one group yields: where its document goes, and the document.
pub struct GroupOutput {
    pub path: String,
    pub document: String,
}

/// Output path of group `i`: `{base}_{i}.pdf`.
pub open spec fn output_name(base: Seq<char>, i: nat) -> Seq<char> {
    base + "_"@ + decimal(i) + ".pdf"@
}

/// The records of group `i` of a roster.
pub open spec fn group_of(records: Seq<Record>, i: int) -> Seq<Record> {
    records.subrange(4 * i, group_end(i, records.len() as int))
}

/// The output path of the group at `group_index`: `{base}_{group_index}.pdf`.
pub fn output_file_path(base: &str, group_index: usize) -> (r: String)
    ensures
        r@ == output_name(base@, group_index as nat),
{
    let mut t = chars_of(base);
    let sep = chars_of("_");
    push_all(&mut t, &sep);
    let d = decimal_chars(group_index as u128);
    push_all(&mut t, &d);
    let ext = chars_of(".pdf");
    push_all(&mut t, &ext);
    string_of(&t)
}

/// Substitutes the group at `group_index` into the template, numbering its
/// placeholders across the roster, and names its output after that index.
pub fn process_group(
    master_svg_str: &str,
    player_groups: &[Record],
    tournament_name: &str,
    output_path: &str,
    group_index: usize,
) -> (r: Result<GroupOutput, SubstitutionError>)
    ensures
        is_empty_group(player_groups@) <==> r is Err,
        r matches Err(e) ==> e == SubstitutionError::EmptyGroup,
        r matches Ok(out) ==> {
            &&& out.document@ == substituted(
                master_svg_str@,
                player_groups@,
                group_index as nat,
                tournament_name@,
            )
            &&& out.path@ == output_name(output_path@, group_index as nat)
        },
{
    let document = replace_svg(master_svg_str, player_groups, tournament_name, group_index)?;
    let path = output_file_path(output_path, group_index);
    Ok(GroupOutput { path, document })
}

/// Splits the records into groups of four and substitutes each into the
/// template; group `i` is written to `{base}_{i}.pdf`. Fails when any group
/// fails; no records give no outputs.
pub fn process_player_groups(
    records: Vec<Record>,
    master_svg_str: &str,
    tournament_name: &str,
    output_path: &str,
) -> (r: Result<Vec<GroupOutput>, SubstitutionError>)
    ensures
        r is Err <==> exists|i: int|
            0 <= i < group_count(records@.len()) && is_empty_group(#[trigger] group_of(records@, i)),
        r matches Err(e) ==> e == SubstitutionError::EmptyGroup,
        r matches Ok(outs) ==> {
            &&& outs@.len() == group_count(records@.len())
            &&& forall|i: int|
                0 <= i < outs@.len() ==> {
                    &&& (#[trigger] outs@[i]).path@ == output_name(output_path@, i as nat)
                    &&& outs@[i].document@ == substituted(
                        master_svg_str@,
                        group_of(records@, i),
                        i as nat,
                        tournament_name@,
                    )
                }
        },
{
    let ghost all = records@;
    let groups = group_records(records);
    let mut outs: Vec<GroupOutput> = Vec::new();
    let mut i: usize = 0;
    while i < groups.len()
        invariant
            i <= groups@.len(),
            all == records@,
            groups@.len() == group_count(all.len()),
            forall|k: int| 0 <= k < groups@.len() ==> (#[trigger] groups@[k])@ == group_of(all, k),
            outs@.len() == i,
            forall|k: int| 0 <= k < i ==> !is_empty_group(#[trigger] group_of(all, k)),
            forall|k: int|
                0 <= k < i ==> {
                    &&& (#[trigger] outs@[k]).path@ == output_name(output_path@, k as nat)
                    &&& outs@[k].document@ == substituted(
                        master_svg_str@,
                        group_of(all, k),
                        k as nat,
                        tournament_name@,
                    )
                },
        decreases groups@.len() - i,
    {
        assert(groups@[i as int]@ == group_of(all, i as int));
        let out = match process_group(master_svg_str, &groups[i], tournament_name, output_path, i) {
            Ok(out) => out,
            Err(e) => {
                assert(is_empty_group(group_of(all, i as int)));
                assert(0 <= i < group_count(all.len()));
                assert(all == records@);
                return Err(e);
            },
        };
        outs.push(out);
        i = i + 1;
    }
    Ok(outs)
}

/// Why a run over a roster failed.
#[derive(Debug, PartialEq, Eq, Structural)]
pub enum BatchError {
    /// The roster could not be read.
    Roster(RosterError),
    /// A group could not be substituted.
    Substitution(SubstitutionError),
}

/// Some group of the records is one the engine refuses.
pub open spec fn batch_fails(records: Seq<Record>) -> bool {
    exists|i: int|
        0 <= i < group_count(records.len()) && is_empty_group(#[trigger] group_of(records, i))
}

/// `outs` holds, for each group of the records in order, its output path and
/// its substituted document.
pub open spec fn batch_outputs(
    records: Seq<Record>,
    template: Seq<char>,
    name: Seq<char>,
    base: Seq<char>,
    outs: Seq<GroupOutput>,
) -> bool {
    &&& outs.len() == group_count(records.len())
    &&& forall|i: int|
        0 <= i < outs.len() ==> {
            &&& (#[trigger] outs[i]).path@ == output_name(base, i as nat)
            &&& outs[i].document@ == substituted(template, group_of(records, i), i as nat, name)
        }
}

/// `loaded` is what reading `text` in the given form gives.
pub open spec fn roster_outcome(
    form: RosterForm,
    text: Seq<char>,
    loaded: Result<Seq<Record>, RosterError>,
) -> bool {
    match form {
        RosterForm::Keyed => keyed_outcome(text, loaded),
        RosterForm::Positional => positional_outcome(text, loaded),
    }
}

/// `r` is what a run gives once the roster was read as `loaded`: the
/// roster's error, or the batch over its records.
pub open spec fn run_outcome(
    loaded: Result<Seq<Record>, RosterError>,
    template: Seq<char>,
    name: Seq<char>,
    base: Seq<char>,
    r: Result<Vec<GroupOutput>, BatchError>,
) -> bool {
    match loaded {
        Err(e) => r == Err::<Vec<GroupOutput>, BatchError>(BatchError::Roster(e)),
        Ok(recs) => {
            &&& r is Err <==> batch_fails(recs)
            &&& r matches Err(e) ==> e == BatchError::Substitution(SubstitutionError::EmptyGroup)
            &&& r matches Ok(outs) ==> batch_outputs(recs, template, name, base, outs@)
        },
    }
}

/// Reads the whole roster in the given form, then runs the batch over its
/// records: every row is read before any group is substituted, so a roster
/// error leaves no outputs.
pub fn process_roster(
    text: &str,
    form: RosterForm,
    master_svg_str: &str,
    tournament_name: &str,
    output_path: &str,
) -> (r: Result<Vec<GroupOutput>, BatchError>)
    ensures
        exists|loaded: Result<Seq<Record>, RosterError>|
            #[trigger] roster_outcome(form, text@, loaded) && run_outcome(
                loaded,
                master_svg_str@,
                tournament_name@,
                output_path@,
                r,
            ),
{
    let loaded = match form {
        RosterForm::Keyed => load_keyed(text),
        RosterForm::Positional => load_positional(text),
    };
    let ghost lv = records_result(loaded);
    assert(roster_outcome(form, text@, lv));
    let records = match loaded {
        Ok(records) => records,
        Err(e) => {
            let r = Err(BatchError::Roster(e));
            assert(run_outcome(lv, master_svg_str@, tournament_name@, output_path@, r));
            return r;
        },
    };
    let ghost recs = records@;
    let r = match process_player_groups(records, master_svg_str, tournament_name, output_path) {
        Ok(outs) => Ok(outs),
        Err(e) => Err(BatchError::Substitution(e)),
    };
    assert(run_outcome(lv, master_svg_str@, tournament_name@, output_path@, r));
    r
}

/// Distinct groups get distinct output paths.
pub proof fn lemma_output_names_distinct(base: Seq<char>, i: nat, j: nat)
    requires
        i != j,
    ensures
        output_name(base, i) != output_name(base, j),
{
    reveal_strlit("_");
    reveal_strlit(".pdf");
    let a = output_name(base, i);
    let b = output_name(base, j);
    let lo = base.len() + 1;
    assert(a.subrange(lo as int, a.len() - 4) =~= decimal(i));
    assert(b.subrange(lo as int, b.len() - 4) =~= decimal(j));
    if a == b {
        lemma_decimal_injective(i, j);
    }
}

} // verus!
