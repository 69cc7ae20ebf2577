use vstd::prelude::*;

use crate::object::Component;
use crate::pathname::{eligible, has_yaml_ext, key_of};
use crate::reconcile::{
    changed_index, changed_notices, changed_result, load_index_step, load_notices, renamed_index,
    renamed_notices, rescan_index, rescan_notices, Notice,
};

verus! {

/// One thing that can happen to a single key: a load attempt with its
/// outcome, as a change event performs it, or an explicit retraction, as a
/// remove event or the source side of a rename performs it.
pub enum KeyStep {
    Load(Result<Component, String>),
    Retract,
}

/// How one step transforms the index at its key.
pub open spec fn key_step_index(
    m: Map<Seq<char>, Component>,
    k: Seq<char>,
    s: KeyStep,
) -> Map<Seq<char>, Component> {
    match s {
        KeyStep::Load(outcome) => load_index_step(m, k, outcome),
        KeyStep::Retract => m.remove(k),
    }
}

/// The index after a sequence of steps on one key, oldest first.
pub open spec fn apply_key_steps(
    m: Map<Seq<char>, Component>,
    k: Seq<char>,
    steps: Seq<KeyStep>,
) -> Map<Seq<char>, Component>
    decreases steps.len(),
{
    if steps.len() == 0 {
        m
    } else {
        apply_key_steps(key_step_index(m, k, steps[0]), k, steps.drop_first())
    }
}

/// Law: whatever happened before, the index holds for a key exactly the most
/// recently, successfully decoded object, and holds nothing for it when the
/// most recent load attempt failed or the key was retracted.
pub proof fn lemma_index_tracks_latest(
    m: Map<Seq<char>, Component>,
    k: Seq<char>,
    steps: Seq<KeyStep>,
)
    requires
        steps.len() > 0,
    ensures
        ({
            let m_end = apply_key_steps(m, k, steps);
            match steps.last() {
                KeyStep::Load(outcome) => match outcome {
                    Ok(c) => m_end.contains_key(k) && m_end[k] == c,
                    Err(_) => !m_end.contains_key(k),
                },
                KeyStep::Retract => !m_end.contains_key(k),
            }
        }),
    decreases steps.len(),
{
    if steps.len() == 1 {
        assert(steps.drop_first().len() == 0);
    } else {
        lemma_index_tracks_latest(key_step_index(m, k, steps[0]), k, steps.drop_first());
        assert(steps.drop_first().last() == steps.last());
    }
}

/// Whether a stretch of notifications announces a creation.
pub open spec fn fires_created(ns: Seq<Notice>) -> bool {
    exists|i: int| 0 <= i < ns.len() && ns[i] is Created
}

/// Whether a stretch of notifications announces an update.
pub open spec fn fires_updated(ns: Seq<Notice>) -> bool {
    exists|i: int| 0 <= i < ns.len() && ns[i] is Updated
}

/// Whether a stretch of notifications announces a retraction.
pub open spec fn fires_deleted(ns: Seq<Notice>) -> bool {
    exists|i: int| 0 <= i < ns.len() && ns[i] is Deleted
}

/// Law: for one load attempt on a key, `created` is announced iff the key
/// goes from absent to present, `updated` iff a present key's object is
/// replaced, and `deleted` iff a present key goes absent with no simultaneous
/// successful re-insert.
pub proof fn lemma_load_notice_characterization(
    m: Map<Seq<char>, Component>,
    k: Seq<char>,
    outcome: Result<Component, String>,
)
    ensures
        fires_created(load_notices(m, k, outcome)) <==> (!m.contains_key(k) && load_index_step(
            m,
            k,
            outcome,
        ).contains_key(k)),
        fires_updated(load_notices(m, k, outcome)) <==> (m.contains_key(k) && outcome is Ok),
        fires_deleted(load_notices(m, k, outcome)) <==> (m.contains_key(k) && !load_index_step(
            m,
            k,
            outcome,
        ).contains_key(k)),
{
    let ns = load_notices(m, k, outcome);
    match outcome {
        Ok(c) => {
            if m.contains_key(k) {
                assert(ns[0] is Updated);
                assert(forall|i: int| 0 <= i < ns.len() ==> ns[i] is Updated);
            } else {
                assert(ns[0] is Created);
                assert(forall|i: int| 0 <= i < ns.len() ==> ns[i] is Created);
            }
        },
        Err(_) => {
            if m.contains_key(k) {
                assert(ns[0] is Deleted);
                assert(forall|i: int| 0 <= i < ns.len() ==> ns[i] is Deleted);
            }
        },
    }
}

/// Law: renaming a tracked source onto an untracked destination whose content
/// decodes announces exactly one update, carrying the source's old object and
/// the destination's new one — no creation and no retraction.
pub proof fn lemma_rename_moves_tracked_object(
    m: Map<Seq<char>, Component>,
    po: Seq<char>,
    pn: Seq<char>,
    new_is_file: bool,
    c: Component,
)
    requires
        has_yaml_ext(key_of(po)),
        m.contains_key(key_of(po)),
        eligible(pn, new_is_file),
        !m.contains_key(key_of(pn)),
    ensures
        renamed_notices(m, po, pn, new_is_file, Ok(c)) == seq![
            Notice::Updated(m[key_of(po)], c),
        ],
        !fires_created(renamed_notices(m, po, pn, new_is_file, Ok(c))),
        !fires_deleted(renamed_notices(m, po, pn, new_is_file, Ok(c))),
        renamed_index(m, po, pn, new_is_file, Ok(c)) == m.remove(key_of(po)).insert(key_of(pn), c),
{
    let ns = renamed_notices(m, po, pn, new_is_file, Ok(c));
    assert(ns =~= seq![Notice::Updated(m[key_of(po)], c)]);
    assert(forall|i: int| 0 <= i < ns.len() ==> ns[i] is Updated);
}

/// Law: renaming a tracked source onto a tracked destination that decodes
/// announces exactly one retraction of the destination's obsolete object and
/// one update from the source's old object to the fresh one. Both stand in
/// the announcement record whatever either sink call answers: each operation
/// is attempted even when the other fails.
pub proof fn lemma_rename_onto_tracked_key(
    m: Map<Seq<char>, Component>,
    po: Seq<char>,
    pn: Seq<char>,
    new_is_file: bool,
    c: Component,
)
    requires
        has_yaml_ext(key_of(po)),
        m.contains_key(key_of(po)),
        eligible(pn, new_is_file),
        m.contains_key(key_of(pn)),
        key_of(po) != key_of(pn),
    ensures
        renamed_notices(m, po, pn, new_is_file, Ok(c)) == seq![
            Notice::Deleted(m[key_of(pn)]),
            Notice::Updated(m[key_of(po)], c),
        ],
        renamed_index(m, po, pn, new_is_file, Ok(c)) == m.remove(key_of(po)).insert(key_of(pn), c),
{
    let ns = renamed_notices(m, po, pn, new_is_file, Ok(c));
    assert(ns =~= seq![Notice::Deleted(m[key_of(pn)]), Notice::Updated(m[key_of(po)], c)]);
}

/// Law: an ineligible path leaves the index untouched, announces nothing and
/// reports success, for a change event of every outcome.
pub proof fn lemma_ineligible_change_is_ignored(
    m: Map<Seq<char>, Component>,
    p: Seq<char>,
    is_file: bool,
    outcome: Result<Component, String>,
)
    requires
        !eligible(p, is_file),
    ensures
        changed_index(m, p, is_file, outcome) == m,
        changed_notices(m, p, is_file, outcome) == Seq::<Notice>::empty(),
        changed_result(m, p, is_file, outcome, Seq::empty()) == Ok::<(), Seq<char>>(()),
{
}

/// Law: a rename whose source does not carry the recognized name and whose
/// destination is ineligible leaves the index untouched, announces nothing
/// and reports success, for every outcome.
pub proof fn lemma_ineligible_rename_is_ignored(
    m: Map<Seq<char>, Component>,
    po: Seq<char>,
    pn: Seq<char>,
    new_is_file: bool,
    outcome: Result<Component, String>,
)
    requires
        !has_yaml_ext(key_of(po)),
        !eligible(pn, new_is_file),
    ensures
        renamed_index(m, po, pn, new_is_file, outcome) == m,
        renamed_notices(m, po, pn, new_is_file, outcome) == Seq::<Notice>::empty(),
{
}

/// Law: rescanning an unchanged, fully loaded directory is not a no-op: it
/// re-executes the change transition for every listed file, announcing one
/// update per file that carries the same object twice, and leaves the index
/// as it was.
pub proof fn lemma_rescan_refreshes_unchanged_directory(
    m: Map<Seq<char>, Component>,
    entries: Seq<(String, Result<Component, String>)>,
)
    requires
        forall|i: int| 0 <= i < entries.len() ==> eligible((#[trigger] entries[i]).0@, true),
        forall|i: int| 0 <= i < entries.len() ==> m.contains_key(key_of((#[trigger] entries[i]).0@)),
        forall|i: int|
            0 <= i < entries.len() ==> (#[trigger] entries[i]).1 == Ok::<Component, String>(
                m[key_of(entries[i].0@)],
            ),
    ensures
        rescan_index(m, entries) == m,
        rescan_notices(m, entries) == Seq::new(
            entries.len(),
            |i: int|
                Notice::Updated(m[key_of(entries[i].0@)], m[key_of(entries[i].0@)]),
        ),
    decreases entries.len(),
{
    let target = Seq::new(
        entries.len(),
        |i: int| Notice::Updated(m[key_of(entries[i].0@)], m[key_of(entries[i].0@)]),
    );
    if entries.len() == 0 {
        assert(rescan_notices(m, entries) =~= target);
    } else {
        let k0 = key_of(entries[0].0@);
        let m1 = changed_index(m, entries[0].0@, true, entries[0].1);
        assert(m1 == m.insert(k0, m[k0]));
        assert(m1 =~= m);
        assert(forall|i: int|
            0 <= i < entries.drop_first().len() ==> #[trigger] entries.drop_first()[i] == entries[
                i + 1
            ]);
        lemma_rescan_refreshes_unchanged_directory(m, entries.drop_first());
        assert(changed_notices(m, entries[0].0@, true, entries[0].1) =~= seq![
            Notice::Updated(m[k0], m[k0]),
        ]);
        assert(rescan_notices(m, entries) =~= target);
    }
}

} // verus!
