//! The prompt that asks a language model to remove a duplicate.
use crate::app_state::{occurrence_models, GroupView, OccurrenceModel, OccurrenceView};
use crate::text::{dec, dec_int, push_dec, push_dec_int};
use vstd::prelude::*;
use vstd::string::*;

verus! {

/// The line of an occurrence: its path and its lines.
pub open spec fn location_line(o: OccurrenceModel) -> Seq<char> {
    "- "@ + o.path + ":"@ + dec_int(o.start_line) + "-"@ + dec_int(o.end_line) + "\n"@
}

/// The lines of the first `n` occurrences.
pub open spec fn location_lines(list: Seq<OccurrenceModel>, n: int) -> Seq<char>
    decreases n,
{
    if n <= 0 {
        Seq::empty()
    } else {
        location_lines(list, n - 1) + location_line(list[n - 1])
    }
}

/// The sentence in front of the lines.
pub open spec fn instruction(count: nat, language: Option<Seq<char>>) -> Seq<char> {
    "The following "@ + dec(count) + " "@ + (match language {
        Some(l) => l + " "@,
        None => Seq::empty(),
    })
        + "code locations were flagged as duplicates by Dedup. Read each location, then propose a refactor that eliminates the duplication — e.g. extract a shared helper / method / constant — and explain trade-offs.\n\n"@
}

/// The prompt for a group: what to do, and where each occurrence is. A group
/// without occurrences has an empty prompt.
pub fn llm_prompt(group: &GroupView, occurrences: &Vec<OccurrenceView>) -> (r: String)
    ensures
        r@ == if occurrences@.len() == 0 {
            Seq::empty()
        } else {
            instruction(occurrences@.len(), group@.language) + location_lines(
                occurrence_models(occurrences@),
                occurrences@.len() as int,
            )
        },
{
    if occurrences.len() == 0 {
        return String::new();
    }
    let ghost models = occurrence_models(occurrences@);
    let mut out: String = "The following ".to_owned();
    push_dec(&mut out, occurrences.len() as u64);
    out.append(" ");
    if let Some(language) = &group.language {
        out.append(language.as_str());
        out.append(" ");
    }
    out.append(
        "code locations were flagged as duplicates by Dedup. Read each location, then propose a refactor that eliminates the duplication — e.g. extract a shared helper / method / constant — and explain trade-offs.\n\n",
    );
    assert(out@ =~= instruction(occurrences@.len(), group@.language));
    let ghost front = out@;
    let mut i: usize = 0;
    assert(out@ =~= front + location_lines(models, 0));
    while i < occurrences.len()
        invariant
            i <= occurrences.len(),
            models == occurrence_models(occurrences@),
            out@ == front + location_lines(models, i as int),
        decreases occurrences.len() - i,
    {
        let o = &occurrences[i];
        assert(models[i as int] == o@);
        let ghost before = out@;
        out.append("- ");
        out.append(o.path.as_str());
        out.append(":");
        push_dec_int(&mut out, o.start_line);
        out.append("-");
        push_dec_int(&mut out, o.end_line);
        out.append("\n");
        assert(out@ =~= before + location_line(o@));
        assert(out@ =~= front + location_lines(models, i + 1));
        i += 1;
    }
    out
}

/// Whether every source could be read.
pub fn all_sources_available(sources: &Vec<Option<String>>) -> (r: bool)
    ensures
        r == forall|i: int| 0 <= i < sources@.len() ==> (#[trigger] sources@[i]) is Some,
{
    let mut i: usize = 0;
    while i < sources.len()
        invariant
            i <= sources.len(),
            forall|k: int| 0 <= k < i ==> (#[trigger] sources@[k]) is Some,
        decreases sources.len() - i,
    {
        if sources[i].is_none() {
            assert(sources@[i as int] is None);
            return false;
        }
        i += 1;
    }
    true
}

/// The prompt has a line for each occurrence, in order, with its path and its
/// lines.
pub proof fn law_every_occurrence_has_a_line(list: Seq<OccurrenceModel>)
    ensures
        location_lines(list, list.len() as int) == list.map_values(
            |o: OccurrenceModel|
                "- "@ + o.path + ":"@ + dec_int(o.start_line) + "-"@ + dec_int(o.end_line) + "\n"@,
        ).flatten(),
{
    lemma_location_lines(list, list.len() as int);
    assert(list.take(list.len() as int) =~= list);
}

/// The lines of the first occurrences.
proof fn lemma_location_lines(list: Seq<OccurrenceModel>, n: int)
    requires
        0 <= n <= list.len(),
    ensures
        location_lines(list, n) == list.take(n).map_values(
            |o: OccurrenceModel|
                "- "@ + o.path + ":"@ + dec_int(o.start_line) + "-"@ + dec_int(o.end_line) + "\n"@,
        ).flatten(),
    decreases n,
{
    let f = |o: OccurrenceModel|
        "- "@ + o.path + ":"@ + dec_int(o.start_line) + "-"@ + dec_int(o.end_line) + "\n"@;
    if n > 0 {
        lemma_location_lines(list, n - 1);
        let before = list.take(n - 1).map_values(f);
        assert(list.take(n).map_values(f) =~= before.push(f(list[n - 1])));
        before.lemma_flatten_push(f(list[n - 1]));
    } else {
        assert(list.take(0).map_values(f) =~= Seq::empty());
        assert(location_lines(list, n) =~= list.take(0).map_values(f).flatten());
    }
}

/// The prompt says how many places there are, and in which language where that is
/// known, and asks for the same in either case.
pub proof fn law_instruction(count: nat, language: Seq<char>)
    ensures
        ({
            let task = "code locations were flagged as duplicates by Dedup. Read each location, then propose a refactor that eliminates the duplication — e.g. extract a shared helper / method / constant — and explain trade-offs.\n\n"@;
            &&& instruction(count, None) == "The following "@ + dec(count) + " "@ + task
            &&& instruction(count, Some(language)) == "The following "@ + dec(count) + " "@ + language
                + " "@ + task
        }),
{
    let task = "code locations were flagged as duplicates by Dedup. Read each location, then propose a refactor that eliminates the duplication — e.g. extract a shared helper / method / constant — and explain trade-offs.\n\n"@;
    assert(instruction(count, None) =~= "The following "@ + dec(count) + " "@ + task);
    assert(instruction(count, Some(language)) =~= "The following "@ + dec(count) + " "@ + language
        + " "@ + task);
}

} // verus!
