//! What holds of the scopes of every inspection: no two open scopes declare
//! one name, and a closed scope leaves nothing behind.
use crate::error::{named_fault, ErrorKind, ErrorModel};
use crate::inspection::{
    initial, kept_after_close, name_index, names_hold, run, segments_events, step, used, Event,
    Inspection, PositionModel, RecordModel,
};
use crate::model::lambda::GroupModel;
use crate::token::IdentModel;
use vstd::prelude::*;

verus! {

/// Whether no two indexes of `active` have the same name.
pub open spec fn names_unique(active: Seq<RecordModel>) -> bool {
    forall|i: int, j: int|
        0 <= i < j < active.len() ==> (#[trigger] active[i]).index.name != (
        #[trigger] active[j]).index.name
}

/// Whether an index named `name` is open.
pub open spec fn is_open(active: Seq<RecordModel>, name: Seq<char>) -> bool {
    exists|k: int| 0 <= k < active.len() && (#[trigger] active[k]).index.name == name
}

/// Whether `names` holds an identifier spelled `name`.
pub open spec fn is_among(names: Seq<IdentModel>, name: Seq<char>) -> bool {
    exists|k: int| 0 <= k < names.len() && (#[trigger] names[k]).name == name
}

/// The search for a name finds the first index of that name, and finds none
/// only where there is none.
pub proof fn lemma_name_index(active: Seq<RecordModel>, name: Seq<char>, from: int)
    requires
        0 <= from <= active.len(),
    ensures
        match name_index(active, name, from) {
            Some(k) => from <= k < active.len() && active[k].index.name == name && forall|j: int|
                from <= j < k ==> (#[trigger] active[j]).index.name != name,
            None => forall|j: int|
                from <= j < active.len() ==> (#[trigger] active[j]).index.name != name,
        },
    decreases active.len() - from,
{
    if from < active.len() && active[from].index.name != name {
        lemma_name_index(active, name, from + 1);
    }
}

/// A name is found exactly where an index of that name is open.
pub proof fn lemma_found_iff_open(active: Seq<RecordModel>, name: Seq<char>)
    ensures
        name_index(active, name, 0) is Some <==> is_open(active, name),
{
    lemma_name_index(active, name, 0);
}

/// Where names are unique, the search for a name finds the one index of
/// that name.
pub proof fn lemma_found_at(active: Seq<RecordModel>, k: int)
    requires
        names_unique(active),
        0 <= k < active.len(),
    ensures
        name_index(active, active[k].index.name, 0) == Some(k),
{
    lemma_name_index(active, active[k].index.name, 0);
}

/// A name is looked up in a list of identifiers exactly as it is among
/// them.
pub proof fn lemma_names_hold(names: Seq<IdentModel>, name: Seq<char>, from: int)
    requires
        0 <= from <= names.len(),
    ensures
        names_hold(names, name, from) <==> exists|k: int|
            from <= k < names.len() && (#[trigger] names[k]).name == name,
    decreases names.len() - from,
{
    if from < names.len() && names[from].name != name {
        lemma_names_hold(names, name, from + 1);
        if names_hold(names, name, from) {
            let k = choose|k: int| from + 1 <= k < names.len() && (#[trigger] names[k]).name == name;
            assert(from <= k < names.len() && names[k].name == name);
        } else {
            assert forall|k: int| from <= k < names.len() implies (#[trigger] names[k]).name
                != name by {
                if k > from {
                    assert(from + 1 <= k);
                }
            }
        }
    } else if from < names.len() {
        assert(from <= from < names.len() && names[from].name == name);
    }
}

/// What stays open when a scope closes was open before, keeps its uses, and
/// is none of the indexes of the scope.
pub proof fn lemma_kept_was_open(active: Seq<RecordModel>, names: Seq<IdentModel>, k: int)
    requires
        0 <= k < kept_after_close(active, names).len(),
    ensures
        !names_hold(names, kept_after_close(active, names)[k].index.name, 0),
        exists|j: int| 0 <= j < active.len() && #[trigger] active[j] == kept_after_close(active, names)[k],
    decreases active.len(),
{
    if active.len() > 0 {
        let rest = active.drop_first();
        if names_hold(names, active[0].index.name, 0) {
            lemma_kept_was_open(rest, names, k);
            let j = choose|j: int| 0 <= j < rest.len() && #[trigger] rest[j] == kept_after_close(rest, names)[k];
            assert(active[j + 1] == kept_after_close(active, names)[k]);
        } else if k == 0 {
            assert(active[0] == kept_after_close(active, names)[k]);
        } else {
            lemma_kept_was_open(rest, names, k - 1);
            let j = choose|j: int| 0 <= j < rest.len() && #[trigger] rest[j] == kept_after_close(rest, names)[k - 1];
            assert(active[j + 1] == kept_after_close(active, names)[k]);
        }
    }
}

/// An index that is none of the indexes of a closing scope stays open, with
/// its uses.
pub proof fn lemma_other_is_kept(active: Seq<RecordModel>, names: Seq<IdentModel>, j: int)
    requires
        0 <= j < active.len(),
        !names_hold(names, active[j].index.name, 0),
    ensures
        exists|k: int|
            0 <= k < kept_after_close(active, names).len() && #[trigger] kept_after_close(
                active,
                names,
            )[k] == active[j],
    decreases active.len(),
{
    let rest = active.drop_first();
    if j == 0 {
        assert(kept_after_close(active, names)[0] == active[0]);
    } else {
        lemma_other_is_kept(rest, names, j - 1);
        let k = choose|k: int|
            0 <= k < kept_after_close(rest, names).len() && #[trigger] kept_after_close(
                rest,
                names,
            )[k] == rest[j - 1];
        if names_hold(names, active[0].index.name, 0) {
            assert(kept_after_close(active, names)[k] == active[j]);
        } else {
            assert(kept_after_close(active, names)[k + 1] == active[j]);
        }
    }
}

/// Closing a scope keeps names unique.
pub proof fn lemma_close_keeps_names_unique(active: Seq<RecordModel>, names: Seq<IdentModel>)
    requires
        names_unique(active),
    ensures
        names_unique(kept_after_close(active, names)),
    decreases active.len(),
{
    if active.len() > 0 {
        let rest = active.drop_first();
        assert(names_unique(rest)) by {
            assert forall|i: int, j: int| 0 <= i < j < rest.len() implies (#[trigger] rest[i]).index.name
                != (#[trigger] rest[j]).index.name by {
                assert(rest[i] == active[i + 1]);
                assert(rest[j] == active[j + 1]);
            }
        }
        lemma_close_keeps_names_unique(rest, names);
        if !names_hold(names, active[0].index.name, 0) {
            let kept = kept_after_close(active, names);
            let inner = kept_after_close(rest, names);
            assert forall|i: int, j: int| 0 <= i < j < kept.len() implies (#[trigger] kept[i]).index.name
                != (#[trigger] kept[j]).index.name by {
                assert(kept[j] == inner[j - 1]);
                if i == 0 {
                    lemma_kept_was_open(rest, names, j - 1);
                    let m = choose|m: int| 0 <= m < rest.len() && #[trigger] rest[m] == inner[j - 1];
                    assert(rest[m] == active[m + 1]);
                    assert(active[0].index.name != active[m + 1].index.name);
                } else {
                    assert(kept[i] == inner[i - 1]);
                }
            }
        }
    }
}

/// No step of an inspection makes two open indexes share a name: a scope
/// that would declare a name that is open is refused.
pub proof fn lemma_step_keeps_names_unique(state: Inspection, event: Event)
    requires
        names_unique(state.active),
    ensures
        step(state, event) matches Ok(next) ==> names_unique(next.active),
        event matches Event::Declare(index) ==> (step(state, event) is Err <==> is_open(
            state.active,
            index.name,
        )),
{
    let active = state.active;
    match event {
        Event::Declare(index) => {
            lemma_name_index(active, index.name, 0);
            if name_index(active, index.name, 0) is None {
                let next = active.push(RecordModel { index, positions: Seq::empty() });
                assert forall|i: int, j: int| 0 <= i < j < next.len() implies (#[trigger] next[i]).index.name
                    != (#[trigger] next[j]).index.name by {
                    assert(next[i] == active[i]);
                    if j < active.len() {
                        assert(next[j] == active[j]);
                    }
                }
            }
        },
        Event::Use { index, at } => {
            lemma_name_index(active, index.name, 0);
            match name_index(active, index.name, 0) {
                Some(k) => {
                    lemma_use_keeps_names_unique(active, k, at);
                },
                None => {},
            }
        },
        Event::Close(names) => {
            lemma_close_keeps_names_unique(active, names);
        },
        _ => {},
    }
}

/// Noting a use keeps names unique.
pub proof fn lemma_use_keeps_names_unique(active: Seq<RecordModel>, k: int, at: PositionModel)
    requires
        names_unique(active),
        0 <= k < active.len(),
    ensures
        names_unique(used(active, k, at)),
{
    let next = used(active, k, at);
    assert forall|i: int, j: int| 0 <= i < j < next.len() implies (#[trigger] next[i]).index.name != (
    #[trigger] next[j]).index.name by {
        if active[k].positions.len() == 0 {
            let a = if i < k {
                i
            } else {
                i + 1
            };
            let b = if j == next.len() - 1 {
                k
            } else if j < k {
                j
            } else {
                j + 1
            };
            assert(next[i].index.name == active[a].index.name);
            assert(next[j].index.name == active[b].index.name);
            assert(a != b);
            if a < b {
                assert(active[a].index.name != active[b].index.name);
            } else {
                assert(active[b].index.name != active[a].index.name);
            }
        } else {
            assert(next[i].index.name == active[i].index.name);
            assert(next[j].index.name == active[j].index.name);
        }
    }
}

/// Throughout an inspection, no two open indexes share a name.
pub proof fn lemma_run_keeps_names_unique(state: Inspection, events: Seq<Event>)
    requires
        names_unique(state.active),
    ensures
        run(state, events) matches Ok(end) ==> names_unique(end.active),
    decreases events.len(),
{
    if events.len() > 0 {
        lemma_step_keeps_names_unique(state, events[0]);
        match step(state, events[0]) {
            Ok(next) => lemma_run_keeps_names_unique(next, events.drop_first()),
            Err(_) => {},
        }
    }
}

/// At every moment of the inspection of a group, the names of the open
/// indexes differ from each other.
pub proof fn lemma_open_names_differ(group: GroupModel, moment: int)
    requires
        0 <= moment <= segments_events(group.segments).len(),
    ensures
        run(initial(), segments_events(group.segments).take(moment)) matches Ok(state)
            ==> names_unique(state.active),
{
    lemma_run_keeps_names_unique(initial(), segments_events(group.segments).take(moment));
}

/// After a scope has closed, none of its indexes is open.
pub proof fn lemma_closed_index_is_not_open(state: Inspection, names: Seq<IdentModel>, name: Seq<char>)
    requires
        is_among(names, name),
    ensures
        step(state, Event::Close(names)) matches Ok(next) && !is_open(next.active, name),
{
    let kept = kept_after_close(state.active, names);
    lemma_names_hold(names, name, 0);
    assert forall|k: int| 0 <= k < kept.len() implies (#[trigger] kept[k]).index.name != name by {
        lemma_kept_was_open(state.active, names, k);
    }
}

/// After a scope has closed, to use one of its indexes is a fault: the
/// index is unknown to what follows the scope and to what encloses it.
pub proof fn lemma_use_after_close_is_a_fault(
    state: Inspection,
    names: Seq<IdentModel>,
    index: IdentModel,
    at: PositionModel,
)
    requires
        is_among(names, index.name),
    ensures
        step(state, Event::Close(names)) matches Ok(next) && step(next, Event::Use { index, at })
            == Err::<Inspection, ErrorModel>(
            named_fault(ErrorKind::UnknownIndex, index.span, index.name),
        ),
{
    lemma_closed_index_is_not_open(state, names, index.name);
    lemma_found_iff_open(kept_after_close(state.active, names), index.name);
}

/// After a scope has closed, one of its names can be declared anew. The new
/// index starts without uses, and the classes that are finished stay as
/// they are: the class of the new index is a class of its own.
pub proof fn lemma_declare_after_close(state: Inspection, names: Seq<IdentModel>, index: IdentModel)
    requires
        is_among(names, index.name),
    ensures
        step(state, Event::Close(names)) matches Ok(next) && step(next, Event::Declare(index))
            matches Ok(again) && again.active == next.active.push(
            RecordModel { index, positions: Seq::empty() },
        ) && again.equivalences == next.equivalences,
{
    lemma_closed_index_is_not_open(state, names, index.name);
    lemma_found_iff_open(kept_after_close(state.active, names), index.name);
}

/// When a scope closes, the indexes of the scopes around it stay open, with
/// the uses noted so far.
pub proof fn lemma_close_leaves_the_others(state: Inspection, names: Seq<IdentModel>, k: int)
    requires
        0 <= k < state.active.len(),
        !is_among(names, state.active[k].index.name),
    ensures
        step(state, Event::Close(names)) matches Ok(next) && exists|j: int|
            0 <= j < next.active.len() && #[trigger] next.active[j] == state.active[k],
{
    lemma_names_hold(names, state.active[k].index.name, 0);
    lemma_other_is_kept(state.active, names, k);
    let kept = kept_after_close(state.active, names);
    let j = choose|j: int| 0 <= j < kept.len() && #[trigger] kept[j] == state.active[k];
    let next = step(state, Event::Close(names))->Ok_0;
    assert(next.active[j] == state.active[k]);
}

} // verus!
