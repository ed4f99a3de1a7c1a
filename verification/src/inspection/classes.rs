//! What holds of the classes of every inspection: a class lists the uses
//! of its index in the order in which the walk met them, the classes of one
//! scope come in the order in which its indexes were first used, the classes
//! of different scopes come in the order in which the scopes close, and
//! there are no other classes but the links to what indexing arrays return.
use crate::inspection::{
    declarations, flushed_by_close, indexer_events, indexers_events, initial, inspect_spec,
    kept_after_close, lemma_run_concat, lemma_run_one, name_index, names_hold, result_of, run,
    segment_events, segments_events, step, used, Event, HeadKind, Inspection, PositionModel,
    RecordModel,
};
use crate::inspection::laws::{
    is_among, is_open, lemma_close_leaves_the_others, lemma_found_at, lemma_found_iff_open,
    lemma_name_index, lemma_names_hold, lemma_other_is_kept, lemma_run_keeps_names_unique,
    lemma_step_keeps_names_unique, names_unique,
};
use crate::model::header::IndexerModel;
use crate::model::lambda::{GroupModel, LambdaModel, SegmentModel};
use crate::token::IdentModel;
use vstd::prelude::*;

verus! {

/// The uses noted so far for the index named `name`; none where no such
/// index is open.
pub open spec fn record_of(active: Seq<RecordModel>, name: Seq<char>) -> Seq<PositionModel> {
    match name_index(active, name, 0) {
        Some(k) => active[k].positions,
        None => Seq::empty(),
    }
}

/// The position at which `event` uses the index named `name`, if it does.
pub open spec fn use_in(event: Event, name: Seq<char>) -> Seq<PositionModel> {
    match event {
        Event::Use { index, at } => if index.name == name {
            seq![at]
        } else {
            Seq::empty()
        },
        _ => Seq::empty(),
    }
}

/// The positions at which `events` use the index named `name`, in the
/// order of the events.
pub open spec fn uses_of(events: Seq<Event>, name: Seq<char>) -> Seq<PositionModel>
    decreases events.len(),
{
    if events.len() == 0 {
        Seq::empty()
    } else {
        use_in(events[0], name) + uses_of(events.drop_first(), name)
    }
}

/// Whether `event` closes the scope of the index named `name`.
pub open spec fn closes(event: Event, name: Seq<char>) -> bool {
    event matches Event::Close(names) && is_among(names, name)
}

/// Whether none of `events` closes the scope of the index named `name`.
pub open spec fn stays_open(events: Seq<Event>, name: Seq<char>) -> bool {
    forall|i: int| 0 <= i < events.len() ==> !closes(#[trigger] events[i], name)
}

/// Where names are unique, the uses noted for a name are those of the one
/// index of that name.
pub proof fn lemma_record_at(active: Seq<RecordModel>, k: int)
    requires
        names_unique(active),
        0 <= k < active.len(),
    ensures
        record_of(active, active[k].index.name) == active[k].positions,
        is_open(active, active[k].index.name),
{
    lemma_found_at(active, k);
}

/// One step adds to the uses noted for an open index the use that the step
/// makes of it, at the end, and nothing else, as long as the step does not
/// close the scope of the index.
pub proof fn lemma_step_collects_use(state: Inspection, event: Event, name: Seq<char>)
    requires
        names_unique(state.active),
        is_open(state.active, name),
        !closes(event, name),
        step(state, event) is Ok,
    ensures
        is_open(step(state, event)->Ok_0.active, name),
        record_of(step(state, event)->Ok_0.active, name) == record_of(state.active, name) + use_in(
            event,
            name,
        ),
{
    let active = state.active;
    let next = step(state, event)->Ok_0.active;
    lemma_step_keeps_names_unique(state, event);
    let k = choose|k: int| 0 <= k < active.len() && (#[trigger] active[k]).index.name == name;
    lemma_record_at(active, k);
    assert(record_of(active, name) + Seq::<PositionModel>::empty() =~= record_of(active, name));
    match event {
        Event::Declare(index) => {
            assert(next[k] == active[k]);
            lemma_record_at(next, k);
        },
        Event::Use { index, at } => {
            lemma_name_index(active, index.name, 0);
            let u = name_index(active, index.name, 0)->Some_0;
            if index.name == name {
                assert(u == k);
                if active[k].positions.len() == 0 {
                    let last = next.len() - 1;
                    assert(next[last].index.name == name);
                    lemma_record_at(next, last);
                    assert(next[last].positions =~= active[k].positions + seq![at]);
                } else {
                    assert(next[k].index.name == name);
                    lemma_record_at(next, k);
                    assert(next[k].positions =~= active[k].positions + seq![at]);
                }
            } else {
                assert(u != k);
                if active[u].positions.len() == 0 {
                    let moved = if k < u {
                        k
                    } else {
                        k - 1
                    };
                    assert(next[moved] == active[k]);
                    lemma_record_at(next, moved);
                } else {
                    assert(next[k] == active[k]);
                    lemma_record_at(next, k);
                }
            }
        },
        Event::Close(names) => {
            lemma_close_leaves_the_others(state, names, k);
            let j = choose|j: int| 0 <= j < next.len() && #[trigger] next[j] == active[k];
            lemma_record_at(next, j);
        },
        _ => {
            lemma_record_at(next, k);
        },
    }
}

/// For as long as its scope stays open, the uses noted for an index are the
/// uses that were met, in the order in which they were met.
pub proof fn lemma_run_collects_uses(state: Inspection, events: Seq<Event>, name: Seq<char>)
    requires
        names_unique(state.active),
        is_open(state.active, name),
        stays_open(events, name),
        run(state, events) is Ok,
    ensures
        is_open(run(state, events)->Ok_0.active, name),
        record_of(run(state, events)->Ok_0.active, name) == record_of(state.active, name)
            + uses_of(events, name),
    decreases events.len(),
{
    if events.len() == 0 {
        assert(record_of(state.active, name) + Seq::<PositionModel>::empty() =~= record_of(
            state.active,
            name,
        ));
    } else {
        let rest = events.drop_first();
        assert(!closes(events[0], name));
        lemma_step_keeps_names_unique(state, events[0]);
        lemma_step_collects_use(state, events[0], name);
        let next = step(state, events[0])->Ok_0;
        assert forall|i: int| 0 <= i < rest.len() implies !closes(#[trigger] rest[i], name) by {
            assert(rest[i] == events[i + 1]);
        }
        lemma_run_collects_uses(next, rest, name);
        assert((record_of(state.active, name) + use_in(events[0], name)) + uses_of(rest, name)
            =~= record_of(state.active, name) + uses_of(events, name));
    }
}

/// When a scope closes, the uses noted for each of its indexes that was
/// used become a finished class, as they are.
pub proof fn lemma_close_finishes_class(active: Seq<RecordModel>, names: Seq<IdentModel>, k: int)
    requires
        0 <= k < active.len(),
        is_among(names, active[k].index.name),
        active[k].positions.len() > 0,
    ensures
        exists|c: int|
            0 <= c < flushed_by_close(active, names).len() && #[trigger] flushed_by_close(
                active,
                names,
            )[c] == active[k].positions,
    decreases active.len(),
{
    let rest = active.drop_first();
    let flushed = flushed_by_close(active, names);
    lemma_names_hold(names, active[k].index.name, 0);
    if k == 0 {
        assert(flushed[0] == active[0].positions);
    } else {
        assert(rest[k - 1] == active[k]);
        lemma_close_finishes_class(rest, names, k - 1);
        let c = choose|c: int|
            0 <= c < flushed_by_close(rest, names).len() && #[trigger] flushed_by_close(
                rest,
                names,
            )[c] == rest[k - 1].positions;
        if names_hold(names, active[0].index.name, 0) && active[0].positions.len() > 0 {
            assert(flushed[c + 1] == active[k].positions);
        } else {
            assert(flushed[c] == active[k].positions);
        }
    }
}

/// Whether `class` is among the classes that were finished after the first
/// `from`.
pub open spec fn finished_from(classes: Seq<Seq<PositionModel>>, from: int, class: Seq<PositionModel>) -> bool {
    exists|c: int| from <= c < classes.len() && #[trigger] classes[c] == class
}

/// When the scope of an open index closes, after events that left it open,
/// the class that is finished for the index is the list of its uses: those
/// noted before, then those that the events made, in their order.
pub proof fn lemma_class_of_open_index(
    state: Inspection,
    name: Seq<char>,
    events: Seq<Event>,
    names: Seq<IdentModel>,
)
    requires
        names_unique(state.active),
        is_open(state.active, name),
        stays_open(events, name),
        is_among(names, name),
        (record_of(state.active, name) + uses_of(events, name)).len() > 0,
        run(state, events + seq![Event::Close(names)]) is Ok,
    ensures
        run(state, events + seq![Event::Close(names)])->Ok_0.equivalences.contains(
            record_of(state.active, name) + uses_of(events, name),
        ),
        finished_from(
            run(state, events + seq![Event::Close(names)])->Ok_0.equivalences,
            run(state, events)->Ok_0.equivalences.len() as int,
            record_of(state.active, name) + uses_of(events, name),
        ),
{
    let closing = seq![Event::Close(names)];
    lemma_run_concat(state, events, closing);
    lemma_run_keeps_names_unique(state, events);
    lemma_run_collects_uses(state, events, name);
    let walked = run(state, events)->Ok_0;
    lemma_name_index(walked.active, name, 0);
    lemma_found_iff_open(walked.active, name);
    let k = name_index(walked.active, name, 0)->Some_0;
    lemma_run_one(walked, Event::Close(names));
    lemma_close_finishes_class(walked.active, names, k);
    let end = step(walked, Event::Close(names))->Ok_0;
    let c = choose|c: int|
        0 <= c < flushed_by_close(walked.active, names).len() && #[trigger] flushed_by_close(
            walked.active,
            names,
        )[c] == walked.active[k].positions;
    assert(end.equivalences[walked.equivalences.len() + c] == record_of(state.active, name)
        + uses_of(events, name));
}

/// Events that leave a scope open, one after the other, leave it open.
pub proof fn lemma_stays_open_concat(a: Seq<Event>, b: Seq<Event>, name: Seq<char>)
    requires
        stays_open(a, name),
        stays_open(b, name),
    ensures
        stays_open(a + b, name),
{
    assert forall|i: int| 0 <= i < (a + b).len() implies !closes(#[trigger] (a + b)[i], name) by {
        if i < a.len() {
            assert((a + b)[i] == a[i]);
        } else {
            assert((a + b)[i] == b[i - a.len()]);
        }
    }
}

/// The uses that two sequences of events make of an index, one after the
/// other.
pub proof fn lemma_uses_of_concat(a: Seq<Event>, b: Seq<Event>, name: Seq<char>)
    ensures
        uses_of(a + b, name) == uses_of(a, name) + uses_of(b, name),
    decreases a.len(),
{
    if a.len() == 0 {
        assert(a + b =~= b);
        assert(uses_of(a, name) + uses_of(b, name) =~= uses_of(b, name));
    } else {
        assert((a + b).drop_first() =~= a.drop_first() + b);
        lemma_uses_of_concat(a.drop_first(), b, name);
        assert(use_in(a[0], name) + (uses_of(a.drop_first(), name) + uses_of(b, name)) =~= (
        use_in(a[0], name) + uses_of(a.drop_first(), name)) + uses_of(b, name));
    }
}

/// The indexers of an array access close no scope.
pub proof fn lemma_indexer_closes_nothing(
    x: IndexerModel,
    head: IdentModel,
    position: int,
    kind: HeadKind,
    name: Seq<char>,
)
    ensures
        stays_open(indexer_events(x, head, position, kind), name),
    decreases x, 0nat,
{
    match x {
        IndexerModel::Reindexing { reindexing_name, indexers } => {
            lemma_indexers_close_nothing(indexers, reindexing_name, 0, HeadKind::Indexer, name);
            let link = seq![
                Event::Link {
                    at: crate::inspection::position_of(head, position, kind),
                    through: reindexing_name,
                },
            ];
            assert(stays_open(link, name));
            lemma_stays_open_concat(
                link,
                indexers_events(indexers, reindexing_name, 0, HeadKind::Indexer),
                name,
            );
        },
        _ => {},
    }
}

/// The indexers of an array access close no scope.
pub proof fn lemma_indexers_close_nothing(
    s: Seq<IndexerModel>,
    head: IdentModel,
    from: int,
    kind: HeadKind,
    name: Seq<char>,
)
    ensures
        stays_open(indexers_events(s, head, from, kind), name),
    decreases s, 1nat,
{
    if s.len() > 0 {
        lemma_indexer_closes_nothing(s[0], head, from, kind, name);
        lemma_indexers_close_nothing(s.drop_first(), head, from + 1, kind, name);
        lemma_stays_open_concat(
            indexer_events(s[0], head, from, kind),
            indexers_events(s.drop_first(), head, from + 1, kind),
            name,
        );
    }
}

/// Declarations close no scope and use no index.
pub proof fn lemma_declarations_are_quiet(indexes: Seq<IdentModel>, from: int, name: Seq<char>)
    requires
        0 <= from <= indexes.len(),
    ensures
        stays_open(declarations(indexes).skip(from), name),
        uses_of(declarations(indexes).skip(from), name) == Seq::<PositionModel>::empty(),
    decreases indexes.len() - from,
{
    let events = declarations(indexes).skip(from);
    if from < indexes.len() {
        lemma_declarations_are_quiet(indexes, from + 1, name);
        assert(events.drop_first() =~= declarations(indexes).skip(from + 1));
        assert(events[0] == Event::Declare(indexes[from]));
        assert(use_in(events[0], name) + Seq::<PositionModel>::empty() =~= Seq::<
            PositionModel,
        >::empty());
    }
}

/// A scope that is read without fault declares no name that is open.
pub proof fn lemma_declared_names_are_new(state: Inspection, indexes: Seq<IdentModel>, name: Seq<char>)
    requires
        names_unique(state.active),
        is_open(state.active, name),
        run(state, declarations(indexes)) is Ok,
    ensures
        !is_among(indexes, name),
{
    if is_among(indexes, name) {
        let k = choose|k: int| 0 <= k < indexes.len() && (#[trigger] indexes[k]).name == name;
        let all = declarations(indexes);
        let before = all.take(k);
        let rest = all.skip(k);
        assert(all =~= before + rest);
        lemma_run_concat(state, before, rest);
        let reached = run(state, before)->Ok_0;
        assert(stays_open(before, name));
        lemma_run_keeps_names_unique(state, before);
        lemma_run_collects_uses(state, before, name);
        assert(rest[0] == Event::Declare(indexes[k]));
        lemma_step_keeps_names_unique(reached, rest[0]);
        assert(step(reached, rest[0]) is Err);
        assert(false);
    }
}

/// In an expression that is inspected without fault, no scope closes while
/// a scope around it is open: the events of segments that are walked while
/// an index is open leave the index open.
pub proof fn lemma_segments_leave_open(state: Inspection, segments: Seq<SegmentModel>, name: Seq<char>)
    requires
        names_unique(state.active),
        is_open(state.active, name),
        run(state, segments_events(segments)) is Ok,
    ensures
        stays_open(segments_events(segments), name),
    decreases segments, 1nat,
{
    if segments.len() > 0 {
        let first = segment_events(segments[0]);
        let rest = segments_events(segments.drop_first());
        lemma_run_concat(state, first, rest);
        lemma_segment_leaves_open(state, segments[0], name);
        lemma_run_keeps_names_unique(state, first);
        lemma_run_collects_uses(state, first, name);
        lemma_segments_leave_open(run(state, first)->Ok_0, segments.drop_first(), name);
        lemma_stays_open_concat(first, rest, name);
    }
}

/// The events of a segment that is walked while an index is open leave the
/// index open.
pub proof fn lemma_segment_leaves_open(state: Inspection, segment: SegmentModel, name: Seq<char>)
    requires
        names_unique(state.active),
        is_open(state.active, name),
        run(state, segment_events(segment)) is Ok,
    ensures
        stays_open(segment_events(segment), name),
    decreases segment, 0nat,
{
    match segment {
        SegmentModel::TensorCall { tensor_name, indexers } => {
            lemma_indexers_close_nothing(indexers, tensor_name, 0, HeadKind::Tensor, name);
        },
        SegmentModel::SubLambda(lambda) => {
            let opening = declarations(lambda.index_declaration);
            let body = segments_events(lambda.body.segments);
            let closing = seq![Event::Close(lambda.index_declaration)];
            lemma_run_concat(state, opening + body, closing);
            lemma_run_concat(state, opening, body);
            lemma_declared_names_are_new(state, lambda.index_declaration, name);
            lemma_declarations_are_quiet(lambda.index_declaration, 0, name);
            assert(opening.skip(0) =~= opening);
            lemma_run_keeps_names_unique(state, opening);
            lemma_run_collects_uses(state, opening, name);
            lemma_segments_leave_open(run(state, opening)->Ok_0, lambda.body.segments, name);
            assert(stays_open(closing, name));
            lemma_stays_open_concat(opening, body, name);
            lemma_stays_open_concat(opening + body, closing, name);
        },
        SegmentModel::SubGroup { group, .. } => {
            lemma_segments_leave_open(state, group.segments, name);
        },
        SegmentModel::Token(_) => {},
    }
}

/// The class of an index lists the uses of the index in the order in which
/// they were met. Where a scope is inspected without fault, each of its
/// indexes that its body uses gets a class, and that class is the list of
/// the positions at which the body uses the index, in the order of the
/// walk.
pub proof fn lemma_class_lists_uses_in_order(state: Inspection, lambda: LambdaModel, i: int)
    requires
        names_unique(state.active),
        0 <= i < lambda.index_declaration.len(),
        uses_of(segments_events(lambda.body.segments), lambda.index_declaration[i].name).len() > 0,
        run(state, segment_events(SegmentModel::SubLambda(lambda))) is Ok,
    ensures
        run(state, segment_events(SegmentModel::SubLambda(lambda)))->Ok_0.equivalences.contains(
            uses_of(segments_events(lambda.body.segments), lambda.index_declaration[i].name),
        ),
        finished_from(
            run(state, segment_events(SegmentModel::SubLambda(lambda)))->Ok_0.equivalences,
            run(
                state,
                declarations(lambda.index_declaration) + segments_events(lambda.body.segments),
            )->Ok_0.equivalences.len() as int,
            uses_of(segments_events(lambda.body.segments), lambda.index_declaration[i].name),
        ),
{
    let indexes = lambda.index_declaration;
    let name = indexes[i].name;
    let opening = declarations(indexes);
    let body = segments_events(lambda.body.segments);
    let closing = seq![Event::Close(indexes)];
    let before = opening.take(i);
    let this = seq![Event::Declare(indexes[i])];
    let after = opening.skip(i + 1);
    assert(opening =~= before + this + after);
    assert(before + this + after + body + closing =~= before + (this + (after + body + closing)));
    lemma_run_concat(state, before, this + (after + body + closing));
    lemma_run_keeps_names_unique(state, before);
    let reached = run(state, before)->Ok_0;
    lemma_run_concat(reached, this, after + body + closing);
    lemma_run_one(reached, Event::Declare(indexes[i]));
    lemma_step_keeps_names_unique(reached, Event::Declare(indexes[i]));
    let declared = step(reached, Event::Declare(indexes[i]))->Ok_0;
    let fresh = declared.active.len() - 1;
    assert(declared.active[fresh].index == indexes[i]);
    lemma_record_at(declared.active, fresh);
    lemma_run_concat(declared, after + body, closing);
    lemma_run_concat(declared, after, body);
    lemma_declarations_are_quiet(indexes, i + 1, name);
    lemma_run_keeps_names_unique(declared, after);
    lemma_run_collects_uses(declared, after, name);
    lemma_segments_leave_open(run(declared, after)->Ok_0, lambda.body.segments, name);
    lemma_stays_open_concat(after, body, name);
    lemma_uses_of_concat(after, body, name);
    assert(is_among(indexes, name));
    assert(Seq::<PositionModel>::empty() + (Seq::<PositionModel>::empty() + uses_of(body, name))
        =~= uses_of(body, name));
    lemma_class_of_open_index(declared, name, after + body, indexes);
    assert(opening + body =~= before + (this + (after + body)));
    lemma_run_concat(state, before, this + (after + body));
    lemma_run_concat(reached, this, after + body);
    assert(run(state, opening + body) == run(declared, after + body));
}

/// Whether the index named `first` stands before the index named `second`
/// in the table.
pub open spec fn stands_before(active: Seq<RecordModel>, first: Seq<char>, second: Seq<char>) -> bool {
    exists|i: int, j: int|
        0 <= i < j < active.len() && (#[trigger] active[i]).index.name == first && (
        #[trigger] active[j]).index.name == second
}

/// At its first use an index comes to stand behind every other open index.
pub proof fn lemma_first_use_stands_last(
    state: Inspection,
    index: IdentModel,
    at: PositionModel,
    other: Seq<char>,
)
    requires
        names_unique(state.active),
        is_open(state.active, index.name),
        record_of(state.active, index.name).len() == 0,
        is_open(state.active, other),
        other != index.name,
    ensures
        step(state, Event::Use { index, at }) matches Ok(next) && stands_before(
            next.active,
            other,
            index.name,
        ),
{
    let active = state.active;
    lemma_found_iff_open(active, index.name);
    lemma_name_index(active, index.name, 0);
    let k = name_index(active, index.name, 0)->Some_0;
    let o = choose|o: int| 0 <= o < active.len() && (#[trigger] active[o]).index.name == other;
    let next = used(active, k, at);
    let moved = if o < k {
        o
    } else {
        o - 1
    };
    let last = next.len() - 1;
    assert(next[moved].index.name == other);
    assert(next[last].index.name == index.name);
    assert(0 <= moved < last < next.len());
}

/// Two indexes that stay open when a scope closes keep their order.
pub proof fn lemma_close_keeps_order(active: Seq<RecordModel>, names: Seq<IdentModel>, i: int, j: int)
    requires
        0 <= i < j < active.len(),
        !names_hold(names, active[i].index.name, 0),
        !names_hold(names, active[j].index.name, 0),
    ensures
        exists|c: int, d: int|
            0 <= c < d < kept_after_close(active, names).len() && #[trigger] kept_after_close(
                active,
                names,
            )[c] == active[i] && #[trigger] kept_after_close(active, names)[d] == active[j],
    decreases active.len(),
{
    let rest = active.drop_first();
    let kept = kept_after_close(active, names);
    let inner = kept_after_close(rest, names);
    if i == 0 {
        assert(rest[j - 1] == active[j]);
        lemma_other_is_kept(rest, names, j - 1);
        let d = choose|d: int| 0 <= d < inner.len() && #[trigger] inner[d] == rest[j - 1];
        assert(kept[0] == active[0]);
        assert(kept[d + 1] == active[j]);
    } else {
        assert(rest[i - 1] == active[i]);
        assert(rest[j - 1] == active[j]);
        lemma_close_keeps_order(rest, names, i - 1, j - 1);
        let (c, d) = choose|c: int, d: int|
            0 <= c < d < inner.len() && #[trigger] inner[c] == rest[i - 1] && #[trigger] inner[d]
                == rest[j - 1];
        if names_hold(names, active[0].index.name, 0) {
            assert(kept[c] == active[i]);
            assert(kept[d] == active[j]);
        } else {
            assert(kept[c + 1] == active[i]);
            assert(kept[d + 1] == active[j]);
        }
    }
}

/// Once an index was used, it keeps its place before the indexes that
/// stand behind it, for as long as their scopes stay open.
pub proof fn lemma_step_keeps_order(state: Inspection, event: Event, first: Seq<char>, second: Seq<char>)
    requires
        names_unique(state.active),
        stands_before(state.active, first, second),
        record_of(state.active, first).len() > 0,
        !closes(event, first),
        !closes(event, second),
        step(state, event) is Ok,
    ensures
        stands_before(step(state, event)->Ok_0.active, first, second),
        record_of(step(state, event)->Ok_0.active, first).len() > 0,
{
    let active = state.active;
    let next = step(state, event)->Ok_0.active;
    let (i, j) = choose|i: int, j: int|
        0 <= i < j < active.len() && (#[trigger] active[i]).index.name == first && (
        #[trigger] active[j]).index.name == second;
    lemma_record_at(active, i);
    lemma_step_collects_use(state, event, first);
    match event {
        Event::Declare(index) => {
            assert(next[i] == active[i]);
            assert(next[j] == active[j]);
        },
        Event::Use { index, at } => {
            lemma_name_index(active, index.name, 0);
            let u = name_index(active, index.name, 0)->Some_0;
            if active[u].positions.len() == 0 {
                assert(u != i);
                let a = if i < u {
                    i
                } else {
                    i - 1
                };
                let b = if j == u {
                    next.len() - 1
                } else if j < u {
                    j
                } else {
                    j - 1
                };
                assert(next[a].index.name == first);
                assert(next[b].index.name == second);
                assert(0 <= a < b < next.len());
            } else {
                assert(next[i].index.name == first);
                assert(next[j].index.name == second);
            }
        },
        Event::Close(names) => {
            lemma_names_hold(names, first, 0);
            lemma_names_hold(names, second, 0);
            lemma_close_keeps_order(active, names, i, j);
            let (c, d) = choose|c: int, d: int|
                0 <= c < d < kept_after_close(active, names).len() && #[trigger] kept_after_close(
                    active,
                    names,
                )[c] == active[i] && #[trigger] kept_after_close(active, names)[d] == active[j];
            assert(next[c].index.name == first);
            assert(next[d].index.name == second);
        },
        _ => {
            assert(next[i] == active[i]);
            assert(next[j] == active[j]);
        },
    }
}

/// Once an index was used, it keeps its place before the indexes that
/// stand behind it, for as long as their scopes stay open.
pub proof fn lemma_run_keeps_order(
    state: Inspection,
    events: Seq<Event>,
    first: Seq<char>,
    second: Seq<char>,
)
    requires
        names_unique(state.active),
        stands_before(state.active, first, second),
        record_of(state.active, first).len() > 0,
        stays_open(events, first),
        stays_open(events, second),
        run(state, events) is Ok,
    ensures
        stands_before(run(state, events)->Ok_0.active, first, second),
    decreases events.len(),
{
    if events.len() > 0 {
        let rest = events.drop_first();
        assert(!closes(events[0], first));
        assert(!closes(events[0], second));
        lemma_step_keeps_names_unique(state, events[0]);
        lemma_step_keeps_order(state, events[0], first, second);
        assert forall|i: int| 0 <= i < rest.len() implies !closes(#[trigger] rest[i], first)
            && !closes(rest[i], second) by {
            assert(rest[i] == events[i + 1]);
        }
        lemma_run_keeps_order(step(state, events[0])->Ok_0, rest, first, second);
    }
}

/// The classes that one closing scope finishes come in the order in which
/// its indexes stand in the table.
pub proof fn lemma_close_in_table_order(active: Seq<RecordModel>, names: Seq<IdentModel>, i: int, j: int)
    requires
        0 <= i < j < active.len(),
        is_among(names, active[i].index.name),
        is_among(names, active[j].index.name),
        active[i].positions.len() > 0,
        active[j].positions.len() > 0,
    ensures
        exists|c: int, d: int|
            0 <= c < d < flushed_by_close(active, names).len() && #[trigger] flushed_by_close(
                active,
                names,
            )[c] == active[i].positions && #[trigger] flushed_by_close(active, names)[d]
                == active[j].positions,
    decreases active.len(),
{
    let rest = active.drop_first();
    let flushed = flushed_by_close(active, names);
    let inner = flushed_by_close(rest, names);
    lemma_names_hold(names, active[i].index.name, 0);
    lemma_names_hold(names, active[j].index.name, 0);
    if i == 0 {
        assert(rest[j - 1] == active[j]);
        lemma_close_finishes_class(rest, names, j - 1);
        let d = choose|d: int| 0 <= d < inner.len() && #[trigger] inner[d] == rest[j - 1].positions;
        assert(flushed[0] == active[0].positions);
        assert(flushed[d + 1] == active[j].positions);
    } else {
        assert(rest[i - 1] == active[i]);
        assert(rest[j - 1] == active[j]);
        lemma_close_in_table_order(rest, names, i - 1, j - 1);
        let (c, d) = choose|c: int, d: int|
            0 <= c < d < inner.len() && #[trigger] inner[c] == rest[i - 1].positions
                && #[trigger] inner[d] == rest[j - 1].positions;
        if names_hold(names, active[0].index.name, 0) && active[0].positions.len() > 0 {
            assert(flushed[c + 1] == active[i].positions);
            assert(flushed[d + 1] == active[j].positions);
        } else {
            assert(flushed[c] == active[i].positions);
            assert(flushed[d] == active[j].positions);
        }
    }
}

/// How many events come before the first use of the index named `name`;
/// the number of all the events where none uses it.
pub open spec fn first_use(events: Seq<Event>, name: Seq<char>) -> int
    decreases events.len(),
{
    if events.len() == 0 {
        0
    } else if use_in(events[0], name).len() > 0 {
        0
    } else {
        1 + first_use(events.drop_first(), name)
    }
}

/// Before its first use an index is not used, and at its first use it is.
pub proof fn lemma_first_use(events: Seq<Event>, name: Seq<char>)
    ensures
        0 <= first_use(events, name) <= events.len(),
        uses_of(events.take(first_use(events, name)), name) == Seq::<PositionModel>::empty(),
        first_use(events, name) < events.len() ==> use_in(
            events[first_use(events, name)],
            name,
        ).len() > 0,
        forall|n: int|
            first_use(events, name) < n <= events.len() ==> uses_of(
                #[trigger] events.take(n),
                name,
            ).len() > 0,
    decreases events.len(),
{
    if events.len() == 0 {
        assert(events.take(0) =~= events);
    } else if use_in(events[0], name).len() > 0 {
        assert(events.take(0) =~= Seq::<Event>::empty());
        assert forall|n: int| 0 < n <= events.len() implies uses_of(
            #[trigger] events.take(n),
            name,
        ).len() > 0 by {
            assert(events.take(n)[0] == events[0]);
        }
    } else {
        let rest = events.drop_first();
        lemma_first_use(rest, name);
        let f = first_use(rest, name);
        assert(events.take(f + 1).drop_first() =~= rest.take(f));
        assert(events.take(f + 1)[0] == events[0]);
        assert(use_in(events[0], name) + uses_of(rest.take(f), name) =~= Seq::<
            PositionModel,
        >::empty());
        if f < rest.len() {
            assert(events[f + 1] == rest[f]);
        }
        assert forall|n: int| f + 1 < n <= events.len() implies uses_of(
            #[trigger] events.take(n),
            name,
        ).len() > 0 by {
            assert(events.take(n).drop_first() =~= rest.take(n - 1));
            assert(events.take(n)[0] == events[0]);
            assert(uses_of(rest.take(n - 1), name).len() > 0);
        }
    }
}

/// After the header of a scope was walked without fault, each of its
/// indexes is open and has no use yet.
pub proof fn lemma_after_declarations(state: Inspection, indexes: Seq<IdentModel>, i: int)
    requires
        names_unique(state.active),
        0 <= i < indexes.len(),
        run(state, declarations(indexes)) is Ok,
    ensures
        names_unique(run(state, declarations(indexes))->Ok_0.active),
        is_open(run(state, declarations(indexes))->Ok_0.active, indexes[i].name),
        record_of(run(state, declarations(indexes))->Ok_0.active, indexes[i].name).len() == 0,
{
    let name = indexes[i].name;
    let opening = declarations(indexes);
    let before = opening.take(i);
    let this = seq![Event::Declare(indexes[i])];
    let after = opening.skip(i + 1);
    assert(opening =~= before + (this + after));
    lemma_run_keeps_names_unique(state, opening);
    lemma_run_concat(state, before, this + after);
    lemma_run_keeps_names_unique(state, before);
    let reached = run(state, before)->Ok_0;
    lemma_run_concat(reached, this, after);
    lemma_run_one(reached, Event::Declare(indexes[i]));
    lemma_step_keeps_names_unique(reached, Event::Declare(indexes[i]));
    let declared = step(reached, Event::Declare(indexes[i]))->Ok_0;
    let fresh = declared.active.len() - 1;
    assert(declared.active[fresh].index == indexes[i]);
    lemma_record_at(declared.active, fresh);
    lemma_declarations_are_quiet(indexes, i + 1, name);
    lemma_run_collects_uses(declared, after, name);
}

/// The classes that are finished once the scope `lambda` was walked from
/// `state`.
pub open spec fn classes_after_scope(state: Inspection, lambda: LambdaModel) -> Seq<
    Seq<PositionModel>,
> {
    run(state, segment_events(SegmentModel::SubLambda(lambda)))->Ok_0.equivalences
}

/// The classes of the indexes of one scope come in the order in which the
/// indexes were first used. Where a scope is inspected without fault and
/// its body uses one of its indexes before it first uses another, the class
/// of the first comes before the class of the second.
pub proof fn lemma_classes_in_order_of_first_use(state: Inspection, lambda: LambdaModel, i: int, j: int)
    requires
        names_unique(state.active),
        0 <= i < lambda.index_declaration.len(),
        0 <= j < lambda.index_declaration.len(),
        first_use(segments_events(lambda.body.segments), lambda.index_declaration[i].name)
            < first_use(segments_events(lambda.body.segments), lambda.index_declaration[j].name)
            < segments_events(lambda.body.segments).len(),
        run(state, segment_events(SegmentModel::SubLambda(lambda))) is Ok,
    ensures
        exists|c: int, d: int|
            0 <= c < d < classes_after_scope(state, lambda).len() && #[trigger] classes_after_scope(
                state,
                lambda,
            )[c] == uses_of(
                segments_events(lambda.body.segments),
                lambda.index_declaration[i].name,
            ) && #[trigger] classes_after_scope(state, lambda)[d] == uses_of(
                segments_events(lambda.body.segments),
                lambda.index_declaration[j].name,
            ),
{
    let indexes = lambda.index_declaration;
    let x = indexes[i].name;
    let y = indexes[j].name;
    let opening = declarations(indexes);
    let body = segments_events(lambda.body.segments);
    let closing = seq![Event::Close(indexes)];
    let fx = first_use(body, x);
    let fy = first_use(body, y);
    lemma_first_use(body, x);
    lemma_first_use(body, y);
    assert(x != y);
    lemma_run_concat(state, opening + body, closing);
    lemma_run_concat(state, opening, body);
    lemma_after_declarations(state, indexes, i);
    lemma_after_declarations(state, indexes, j);
    let opened = run(state, opening)->Ok_0;
    lemma_segments_leave_open(opened, lambda.body.segments, x);
    lemma_segments_leave_open(opened, lambda.body.segments, y);
    let pre = body.take(fy);
    let at_use = seq![body[fy]];
    let post = body.skip(fy + 1);
    assert(body =~= pre + (at_use + post));
    lemma_run_concat(opened, pre, at_use + post);
    lemma_run_concat(run(opened, pre)->Ok_0, at_use, post);
    assert(stays_open(pre, x) && stays_open(pre, y)) by {
        assert forall|n: int| 0 <= n < pre.len() implies !closes(#[trigger] pre[n], x) && !closes(
            pre[n],
            y,
        ) by {
            assert(pre[n] == body[n]);
        }
    }
    assert(stays_open(post, x) && stays_open(post, y)) by {
        assert forall|n: int| 0 <= n < post.len() implies !closes(#[trigger] post[n], x)
            && !closes(post[n], y) by {
            assert(post[n] == body[fy + 1 + n]);
        }
    }
    lemma_run_keeps_names_unique(opened, pre);
    lemma_run_collects_uses(opened, pre, x);
    lemma_run_collects_uses(opened, pre, y);
    let reached = run(opened, pre)->Ok_0;
    assert(record_of(reached.active, x).len() > 0);
    assert(record_of(reached.active, y).len() == 0);
    lemma_run_one(reached, body[fy]);
    let index = body[fy]->Use_index;
    let at = body[fy]->Use_at;
    assert(body[fy] == Event::Use { index, at });
    lemma_first_use_stands_last(reached, index, at, x);
    lemma_step_keeps_names_unique(reached, body[fy]);
    assert(!closes(body[fy], x));
    lemma_step_collects_use(reached, body[fy], x);
    let used_once = step(reached, body[fy])->Ok_0;
    lemma_run_keeps_order(used_once, post, x, y);
    lemma_run_keeps_names_unique(opened, body);
    lemma_run_collects_uses(opened, body, x);
    lemma_run_collects_uses(opened, body, y);
    let walked = run(opened, body)->Ok_0;
    assert(walked == run(used_once, post)->Ok_0);
    let (a, b) = choose|a: int, b: int|
        0 <= a < b < walked.active.len() && (#[trigger] walked.active[a]).index.name == x && (
        #[trigger] walked.active[b]).index.name == y;
    lemma_record_at(walked.active, a);
    lemma_record_at(walked.active, b);
    assert(body.take(body.len() as int) =~= body);
    assert(walked.active[a].positions =~= uses_of(body, x));
    assert(walked.active[b].positions =~= uses_of(body, y));
    assert(is_among(indexes, x));
    assert(is_among(indexes, y));
    lemma_run_one(walked, Event::Close(indexes));
    lemma_close_in_table_order(walked.active, indexes, a, b);
    let flushed = flushed_by_close(walked.active, indexes);
    let (c, d) = choose|c: int, d: int|
        0 <= c < d < flushed.len() && #[trigger] flushed[c] == walked.active[a].positions
            && #[trigger] flushed[d] == walked.active[b].positions;
    let end = classes_after_scope(state, lambda);
    let base = walked.equivalences.len() as int;
    assert(end[base + c] == uses_of(body, x));
    assert(end[base + d] == uses_of(body, y));
}

/// Whether every class of `classes` holds at least one position.
pub open spec fn no_class_is_empty(classes: Seq<Seq<PositionModel>>) -> bool {
    forall|c: int| 0 <= c < classes.len() ==> (#[trigger] classes[c]).len() > 0
}

/// Every class that a closing scope finishes stems from one of its indexes
/// that was used, and two of them stem from two different indexes, in the
/// order of the table.
pub proof fn lemma_flushed_stem_from_indexes(active: Seq<RecordModel>, names: Seq<IdentModel>, c: int, d: int)
    requires
        0 <= c <= d < flushed_by_close(active, names).len(),
    ensures
        exists|i: int, j: int|
            0 <= i <= j < active.len() && (c < d ==> i < j) && (#[trigger] active[i]).positions
                == flushed_by_close(active, names)[c] && (#[trigger] active[j]).positions
                == flushed_by_close(active, names)[d] && active[i].positions.len() > 0
                && active[j].positions.len() > 0 && names_hold(names, active[i].index.name, 0)
                && names_hold(names, active[j].index.name, 0),
    decreases active.len(),
{
    let rest = active.drop_first();
    let flushed = flushed_by_close(active, names);
    let inner = flushed_by_close(rest, names);
    if names_hold(names, active[0].index.name, 0) && active[0].positions.len() > 0 {
        if c == 0 && d == 0 {
            assert(active[0].positions == flushed[0]);
        } else if c == 0 {
            lemma_flushed_stem_from_indexes(rest, names, d - 1, d - 1);
            let (i, j) = choose|i: int, j: int|
                0 <= i <= j < rest.len() && (#[trigger] rest[i]).positions == inner[d - 1] && (
                #[trigger] rest[j]).positions == inner[d - 1] && rest[j].positions.len() > 0
                    && names_hold(names, rest[j].index.name, 0);
            assert(active[0].positions == flushed[c]);
            assert(active[j + 1].positions == flushed[d]);
        } else {
            lemma_flushed_stem_from_indexes(rest, names, c - 1, d - 1);
            let (i, j) = choose|i: int, j: int|
                0 <= i <= j < rest.len() && (c - 1 < d - 1 ==> i < j) && (#[trigger] rest[i]).positions
                    == inner[c - 1] && (#[trigger] rest[j]).positions == inner[d - 1]
                    && rest[i].positions.len() > 0 && rest[j].positions.len() > 0 && names_hold(
                    names,
                    rest[i].index.name,
                    0,
                ) && names_hold(names, rest[j].index.name, 0);
            assert(active[i + 1].positions == flushed[c]);
            assert(active[j + 1].positions == flushed[d]);
        }
    } else {
        lemma_flushed_stem_from_indexes(rest, names, c, d);
        let (i, j) = choose|i: int, j: int|
            0 <= i <= j < rest.len() && (c < d ==> i < j) && (#[trigger] rest[i]).positions
                == inner[c] && (#[trigger] rest[j]).positions == inner[d]
                && rest[i].positions.len() > 0 && rest[j].positions.len() > 0 && names_hold(
                names,
                rest[i].index.name,
                0,
            ) && names_hold(names, rest[j].index.name, 0);
        assert(active[i + 1].positions == flushed[c]);
        assert(active[j + 1].positions == flushed[d]);
    }
}

/// No step of an inspection finishes a class without positions.
pub proof fn lemma_step_finishes_no_empty_class(state: Inspection, event: Event)
    requires
        no_class_is_empty(state.equivalences),
    ensures
        step(state, event) matches Ok(next) ==> no_class_is_empty(next.equivalences),
{
    match event {
        Event::Close(names) => {
            let flushed = flushed_by_close(state.active, names);
            let next = state.equivalences + flushed;
            assert forall|c: int| 0 <= c < next.len() implies (#[trigger] next[c]).len() > 0 by {
                if c >= state.equivalences.len() {
                    let k = c - state.equivalences.len();
                    lemma_flushed_stem_from_indexes(state.active, names, k, k);
                }
            }
        },
        _ => {},
    }
}

/// Every class that an inspection finds holds at least one position.
pub proof fn lemma_run_finishes_no_empty_class(state: Inspection, events: Seq<Event>)
    requires
        no_class_is_empty(state.equivalences),
    ensures
        run(state, events) matches Ok(end) ==> no_class_is_empty(end.equivalences),
    decreases events.len(),
{
    if events.len() > 0 {
        lemma_step_finishes_no_empty_class(state, events[0]);
        match step(state, events[0]) {
            Ok(next) => lemma_run_finishes_no_empty_class(next, events.drop_first()),
            Err(_) => {},
        }
    }
}

/// The scopes of a sequence of segments, in the order in which the walk
/// enters them.
pub open spec fn scopes_of(segments: Seq<SegmentModel>) -> Seq<LambdaModel>
    decreases segments,
{
    if segments.len() == 0 {
        Seq::empty()
    } else {
        segment_scopes(segments[0]) + scopes_of(segments.drop_first())
    }
}

/// The scopes of a segment, in the order in which the walk enters them: a
/// scope comes before the scopes in its body.
pub open spec fn segment_scopes(x: SegmentModel) -> Seq<LambdaModel>
    decreases x,
{
    match x {
        SegmentModel::SubLambda(lambda) => seq![lambda] + scopes_of(lambda.body.segments),
        SegmentModel::SubGroup { group, .. } => scopes_of(group.segments),
        _ => Seq::empty(),
    }
}

/// The positions at which the body of the scope `lambda` uses its index
/// `i`, in the order of the walk.
pub open spec fn uses_in_scope(lambda: LambdaModel, i: int) -> Seq<PositionModel> {
    uses_of(segments_events(lambda.body.segments), lambda.index_declaration[i].name)
}

/// A class that is finished stays as it is to the end of the inspection.
pub proof fn lemma_classes_stay(state: Inspection, events: Seq<Event>, class: Seq<PositionModel>)
    requires
        state.equivalences.contains(class),
        run(state, events) is Ok,
    ensures
        run(state, events)->Ok_0.equivalences.contains(class),
    decreases events.len(),
{
    if events.len() > 0 {
        let next = step(state, events[0])->Ok_0;
        let c = choose|c: int| 0 <= c < state.equivalences.len() && state.equivalences[c] == class;
        assert(next.equivalences[c] == class);
        lemma_classes_stay(next, events.drop_first(), class);
    }
}

/// Every scope of the segments `segments` that is walked without fault
/// gets, for each of its indexes that its body uses, the class that lists
/// the uses in the order of the walk.
pub proof fn lemma_scopes_of_segments_get_classes(
    state: Inspection,
    segments: Seq<SegmentModel>,
    n: int,
    i: int,
)
    requires
        names_unique(state.active),
        run(state, segments_events(segments)) is Ok,
        0 <= n < scopes_of(segments).len(),
        0 <= i < scopes_of(segments)[n].index_declaration.len(),
        uses_in_scope(scopes_of(segments)[n], i).len() > 0,
    ensures
        run(state, segments_events(segments))->Ok_0.equivalences.contains(
            uses_in_scope(scopes_of(segments)[n], i),
        ),
    decreases segments, 1nat,
{
    let first = segment_events(segments[0]);
    let rest = segments_events(segments.drop_first());
    lemma_run_concat(state, first, rest);
    let middle = run(state, first)->Ok_0;
    let here = segment_scopes(segments[0]);
    if n < here.len() {
        assert(scopes_of(segments)[n] == here[n]);
        lemma_scopes_of_segment_get_classes(state, segments[0], n, i);
        lemma_classes_stay(middle, rest, uses_in_scope(here[n], i));
    } else {
        assert(scopes_of(segments)[n] == scopes_of(segments.drop_first())[n - here.len()]);
        lemma_run_keeps_names_unique(state, first);
        lemma_scopes_of_segments_get_classes(middle, segments.drop_first(), n - here.len(), i);
    }
}

/// Every scope of the segment `segment` that is walked without fault gets,
/// for each of its indexes that its body uses, the class that lists the
/// uses in the order of the walk.
pub proof fn lemma_scopes_of_segment_get_classes(state: Inspection, segment: SegmentModel, n: int, i: int)
    requires
        names_unique(state.active),
        run(state, segment_events(segment)) is Ok,
        0 <= n < segment_scopes(segment).len(),
        0 <= i < segment_scopes(segment)[n].index_declaration.len(),
        uses_in_scope(segment_scopes(segment)[n], i).len() > 0,
    ensures
        run(state, segment_events(segment))->Ok_0.equivalences.contains(
            uses_in_scope(segment_scopes(segment)[n], i),
        ),
    decreases segment, 0nat,
{
    match segment {
        SegmentModel::SubLambda(lambda) => {
            if n == 0 {
                lemma_class_lists_uses_in_order(state, lambda, i);
            } else {
                let opening = declarations(lambda.index_declaration);
                let body = segments_events(lambda.body.segments);
                let closing = seq![Event::Close(lambda.index_declaration)];
                lemma_run_concat(state, opening + body, closing);
                lemma_run_concat(state, opening, body);
                lemma_run_keeps_names_unique(state, opening);
                let opened = run(state, opening)->Ok_0;
                assert(segment_scopes(segment)[n] == scopes_of(lambda.body.segments)[n - 1]);
                lemma_scopes_of_segments_get_classes(opened, lambda.body.segments, n - 1, i);
                lemma_classes_stay(
                    run(opened, body)->Ok_0,
                    closing,
                    uses_in_scope(segment_scopes(segment)[n], i),
                );
            }
        },
        SegmentModel::SubGroup { group, .. } => {
            lemma_scopes_of_segments_get_classes(state, group.segments, n, i);
        },
        _ => {},
    }
}

/// Within a class, the positions come in the order of discovery: for every
/// scope of an expression that is inspected without fault, and for each of
/// its indexes that its body uses, the classes that the inspection finds
/// hold the class of that index, which lists the positions at which the
/// body uses the index in the order in which the walk meets them.
pub proof fn lemma_inspection_lists_uses_in_order(group: GroupModel, n: int, i: int)
    requires
        inspect_spec(group) is Ok,
        0 <= n < scopes_of(group.segments).len(),
        0 <= i < scopes_of(group.segments)[n].index_declaration.len(),
        uses_in_scope(scopes_of(group.segments)[n], i).len() > 0,
    ensures
        inspect_spec(group)->Ok_0.equivalences.contains(
            uses_in_scope(scopes_of(group.segments)[n], i),
        ),
{
    lemma_scopes_of_segments_get_classes(initial(), group.segments, n, i);
}

/// Throughout an inspection, no two plain values fill the same place.
pub proof fn lemma_run_keeps_places_apart(state: Inspection, events: Seq<Event>)
    requires
        crate::inspection::places_differ(state.plain_values),
    ensures
        run(state, events) matches Ok(end) ==> crate::inspection::places_differ(end.plain_values),
    decreases events.len(),
{
    if events.len() > 0 {
        match events[0] {
            Event::Plain { at, expr } => {
                crate::inspection::lemma_bind_plain_keeps_places_apart(
                    state.plain_values,
                    at,
                    expr,
                );
            },
            _ => {},
        }
        match step(state, events[0]) {
            Ok(next) => lemma_run_keeps_places_apart(next, events.drop_first()),
            Err(_) => {},
        }
    }
}

/// Whether the class `first` comes before the class `second` in `classes`.
pub open spec fn comes_before(
    classes: Seq<Seq<PositionModel>>,
    first: Seq<PositionModel>,
    second: Seq<PositionModel>,
) -> bool {
    exists|c: int, d: int|
        0 <= c < d < classes.len() && #[trigger] classes[c] == first && #[trigger] classes[d]
            == second
}

/// The classes that are finished keep their places to the end of the
/// inspection: new classes come behind them.
pub proof fn lemma_classes_keep_their_places(state: Inspection, events: Seq<Event>)
    requires
        run(state, events) is Ok,
    ensures
        state.equivalences.len() <= run(state, events)->Ok_0.equivalences.len(),
        forall|c: int|
            0 <= c < state.equivalences.len() ==> #[trigger] run(
                state,
                events,
            )->Ok_0.equivalences[c] == state.equivalences[c],
    decreases events.len(),
{
    if events.len() > 0 {
        let next = step(state, events[0])->Ok_0;
        lemma_classes_keep_their_places(next, events.drop_first());
        let end = run(state, events)->Ok_0;
        assert forall|c: int| 0 <= c < state.equivalences.len() implies #[trigger] end.equivalences[c]
            == state.equivalences[c] by {
            assert(next.equivalences[c] == state.equivalences[c]);
        }
    }
}

/// Two classes that are finished keep their order to the end of the
/// inspection.
pub proof fn lemma_order_of_classes_stays(
    state: Inspection,
    events: Seq<Event>,
    first: Seq<PositionModel>,
    second: Seq<PositionModel>,
)
    requires
        comes_before(state.equivalences, first, second),
        run(state, events) is Ok,
    ensures
        comes_before(run(state, events)->Ok_0.equivalences, first, second),
{
    lemma_classes_keep_their_places(state, events);
    let (c, d) = choose|c: int, d: int|
        0 <= c < d < state.equivalences.len() && #[trigger] state.equivalences[c] == first
            && #[trigger] state.equivalences[d] == second;
    let end = run(state, events)->Ok_0.equivalences;
    assert(end[c] == first);
    assert(end[d] == second);
}

/// Whether the body of the scope `lambda` first uses its index `i` before
/// it first uses its index `j`.
pub open spec fn used_earlier(lambda: LambdaModel, i: int, j: int) -> bool {
    let body = segments_events(lambda.body.segments);
    first_use(body, lambda.index_declaration[i].name) < first_use(
        body,
        lambda.index_declaration[j].name,
    ) < body.len()
}

/// For every scope of the segments `segments` that is walked without fault,
/// the classes of its indexes come in the order in which its body first
/// uses the indexes.
pub proof fn lemma_scopes_of_segments_order_classes(
    state: Inspection,
    segments: Seq<SegmentModel>,
    n: int,
    i: int,
    j: int,
)
    requires
        names_unique(state.active),
        run(state, segments_events(segments)) is Ok,
        0 <= n < scopes_of(segments).len(),
        0 <= i < scopes_of(segments)[n].index_declaration.len(),
        0 <= j < scopes_of(segments)[n].index_declaration.len(),
        used_earlier(scopes_of(segments)[n], i, j),
    ensures
        comes_before(
            run(state, segments_events(segments))->Ok_0.equivalences,
            uses_in_scope(scopes_of(segments)[n], i),
            uses_in_scope(scopes_of(segments)[n], j),
        ),
    decreases segments, 1nat,
{
    let first = segment_events(segments[0]);
    let rest = segments_events(segments.drop_first());
    lemma_run_concat(state, first, rest);
    let middle = run(state, first)->Ok_0;
    let here = segment_scopes(segments[0]);
    if n < here.len() {
        assert(scopes_of(segments)[n] == here[n]);
        lemma_scopes_of_segment_order_classes(state, segments[0], n, i, j);
        lemma_order_of_classes_stays(
            middle,
            rest,
            uses_in_scope(here[n], i),
            uses_in_scope(here[n], j),
        );
    } else {
        assert(scopes_of(segments)[n] == scopes_of(segments.drop_first())[n - here.len()]);
        lemma_run_keeps_names_unique(state, first);
        lemma_scopes_of_segments_order_classes(
            middle,
            segments.drop_first(),
            n - here.len(),
            i,
            j,
        );
    }
}

/// For every scope of the segment `segment` that is walked without fault,
/// the classes of its indexes come in the order in which its body first
/// uses the indexes.
pub proof fn lemma_scopes_of_segment_order_classes(
    state: Inspection,
    segment: SegmentModel,
    n: int,
    i: int,
    j: int,
)
    requires
        names_unique(state.active),
        run(state, segment_events(segment)) is Ok,
        0 <= n < segment_scopes(segment).len(),
        0 <= i < segment_scopes(segment)[n].index_declaration.len(),
        0 <= j < segment_scopes(segment)[n].index_declaration.len(),
        used_earlier(segment_scopes(segment)[n], i, j),
    ensures
        comes_before(
            run(state, segment_events(segment))->Ok_0.equivalences,
            uses_in_scope(segment_scopes(segment)[n], i),
            uses_in_scope(segment_scopes(segment)[n], j),
        ),
    decreases segment, 0nat,
{
    match segment {
        SegmentModel::SubLambda(lambda) => {
            if n == 0 {
                lemma_classes_in_order_of_first_use(state, lambda, i, j);
                let (c, d) = choose|c: int, d: int|
                    0 <= c < d < classes_after_scope(state, lambda).len()
                        && #[trigger] classes_after_scope(state, lambda)[c] == uses_in_scope(
                        lambda,
                        i,
                    ) && #[trigger] classes_after_scope(state, lambda)[d] == uses_in_scope(
                        lambda,
                        j,
                    );
                let end = run(state, segment_events(segment))->Ok_0.equivalences;
                assert(end[c] == uses_in_scope(lambda, i));
                assert(end[d] == uses_in_scope(lambda, j));
            } else {
                let opening = declarations(lambda.index_declaration);
                let body = segments_events(lambda.body.segments);
                let closing = seq![Event::Close(lambda.index_declaration)];
                lemma_run_concat(state, opening + body, closing);
                lemma_run_concat(state, opening, body);
                lemma_run_keeps_names_unique(state, opening);
                let opened = run(state, opening)->Ok_0;
                let inner = scopes_of(lambda.body.segments)[n - 1];
                assert(segment_scopes(segment)[n] == inner);
                lemma_scopes_of_segments_order_classes(opened, lambda.body.segments, n - 1, i, j);
                lemma_order_of_classes_stays(
                    run(opened, body)->Ok_0,
                    closing,
                    uses_in_scope(inner, i),
                    uses_in_scope(inner, j),
                );
            }
        },
        SegmentModel::SubGroup { group, .. } => {
            lemma_scopes_of_segments_order_classes(state, group.segments, n, i, j);
        },
        _ => {},
    }
}

/// The classes of the indexes of one scope come in the order of first
/// mention: for every scope of an expression that is inspected without
/// fault, if the body of the scope first uses one of its indexes before it
/// first uses another, the class of the first comes before the class of the
/// second among the classes that the inspection finds.
pub proof fn lemma_inspection_orders_classes_by_first_use(group: GroupModel, n: int, i: int, j: int)
    requires
        inspect_spec(group) is Ok,
        0 <= n < scopes_of(group.segments).len(),
        0 <= i < scopes_of(group.segments)[n].index_declaration.len(),
        0 <= j < scopes_of(group.segments)[n].index_declaration.len(),
        used_earlier(scopes_of(group.segments)[n], i, j),
    ensures
        comes_before(
            inspect_spec(group)->Ok_0.equivalences,
            uses_in_scope(scopes_of(group.segments)[n], i),
            uses_in_scope(scopes_of(group.segments)[n], j),
        ),
{
    lemma_scopes_of_segments_order_classes(initial(), group.segments, n, i, j);
}

/// The class that ties the position `at` to what the indexing array
/// `through` returns.
pub open spec fn link_of(at: PositionModel, through: IdentModel) -> Seq<PositionModel> {
    seq![at, result_of(through)]
}

/// Whether the class ties a position to what an indexing array returns.
pub open spec fn is_link(class: Seq<PositionModel>) -> bool {
    exists|at: PositionModel, through: IdentModel| class == #[trigger] link_of(at, through)
}

/// Whether the class is that of an index of one of the scopes of
/// `segments`: the list of the positions at which the body of the scope uses
/// the index.
pub open spec fn is_class_of_scope(segments: Seq<SegmentModel>, class: Seq<PositionModel>) -> bool {
    exists|n: int, i: int|
        0 <= n < scopes_of(segments).len() && 0 <= i < scopes_of(
            segments,
        )[n].index_declaration.len() && class == #[trigger] uses_in_scope(scopes_of(segments)[n], i)
}

/// Whether every class that was finished after the first `from` is a link
/// or the class of an index of one of the scopes of `segments`.
pub open spec fn explained_from(
    classes: Seq<Seq<PositionModel>>,
    from: int,
    segments: Seq<SegmentModel>,
) -> bool {
    forall|c: int|
        from <= c < classes.len() ==> is_link(#[trigger] classes[c]) || is_class_of_scope(
            segments,
            classes[c],
        )
}

/// The indexers of an array access finish no class but links.
pub proof fn lemma_indexer_adds_links(
    state: Inspection,
    x: IndexerModel,
    head: IdentModel,
    position: int,
    kind: HeadKind,
)
    requires
        run(state, indexer_events(x, head, position, kind)) is Ok,
    ensures
        forall|c: int|
            state.equivalences.len() <= c < run(
                state,
                indexer_events(x, head, position, kind),
            )->Ok_0.equivalences.len() ==> is_link(
                #[trigger] run(state, indexer_events(x, head, position, kind))->Ok_0.equivalences[c],
            ),
    decreases x, 0nat,
{
    let events = indexer_events(x, head, position, kind);
    match x {
        IndexerModel::Reindexing { reindexing_name, indexers } => {
            let at = crate::inspection::position_of(head, position, kind);
            let link = seq![Event::Link { at, through: reindexing_name }];
            let inner = indexers_events(indexers, reindexing_name, 0, HeadKind::Indexer);
            lemma_run_concat(state, link, inner);
            lemma_run_one(state, link[0]);
            let linked = run(state, link)->Ok_0;
            lemma_indexers_add_links(linked, indexers, reindexing_name, 0, HeadKind::Indexer);
            lemma_classes_keep_their_places(linked, inner);
            let end = run(state, events)->Ok_0.equivalences;
            assert forall|c: int| state.equivalences.len() <= c < end.len() implies is_link(
                #[trigger] end[c],
            ) by {
                if c == state.equivalences.len() {
                    assert(end[c] == linked.equivalences[c]);
                    assert(end[c] == link_of(at, reindexing_name));
                }
            }
        },
        _ => {
            lemma_run_one(state, events[0]);
        },
    }
}

/// The indexers of an array access finish no class but links.
pub proof fn lemma_indexers_add_links(
    state: Inspection,
    s: Seq<IndexerModel>,
    head: IdentModel,
    from: int,
    kind: HeadKind,
)
    requires
        run(state, indexers_events(s, head, from, kind)) is Ok,
    ensures
        forall|c: int|
            state.equivalences.len() <= c < run(
                state,
                indexers_events(s, head, from, kind),
            )->Ok_0.equivalences.len() ==> is_link(
                #[trigger] run(state, indexers_events(s, head, from, kind))->Ok_0.equivalences[c],
            ),
    decreases s, 1nat,
{
    if s.len() > 0 {
        let first = indexer_events(s[0], head, from, kind);
        let rest = indexers_events(s.drop_first(), head, from + 1, kind);
        lemma_run_concat(state, first, rest);
        lemma_indexer_adds_links(state, s[0], head, from, kind);
        let middle = run(state, first)->Ok_0;
        lemma_indexers_add_links(middle, s.drop_first(), head, from + 1, kind);
        lemma_classes_keep_their_places(state, first);
        lemma_classes_keep_their_places(middle, rest);
        let end = run(state, indexers_events(s, head, from, kind))->Ok_0.equivalences;
        assert forall|c: int| state.equivalences.len() <= c < end.len() implies is_link(
            #[trigger] end[c],
        ) by {
            if c < middle.equivalences.len() {
                assert(end[c] == middle.equivalences[c]);
            }
        }
    }
}

/// Declarations finish no class.
pub proof fn lemma_declarations_add_nothing(state: Inspection, indexes: Seq<IdentModel>, from: int)
    requires
        0 <= from <= indexes.len(),
        run(state, declarations(indexes).skip(from)) is Ok,
    ensures
        run(state, declarations(indexes).skip(from))->Ok_0.equivalences == state.equivalences,
    decreases indexes.len() - from,
{
    let events = declarations(indexes).skip(from);
    if from < indexes.len() {
        assert(events.drop_first() =~= declarations(indexes).skip(from + 1));
        assert(events[0] == Event::Declare(indexes[from]));
        lemma_declarations_add_nothing(step(state, events[0])->Ok_0, indexes, from + 1);
    }
}

/// The scopes of one segment alone.
pub proof fn lemma_scopes_of_one(segment: SegmentModel)
    ensures
        scopes_of(seq![segment]) == segment_scopes(segment),
{
    reveal_with_fuel(scopes_of, 2);
    let one = seq![segment];
    assert(one.drop_first() =~= Seq::<SegmentModel>::empty());
    assert(scopes_of(one) =~= segment_scopes(segment));
}

/// The class of a scope of the first of some segments is the class of a
/// scope of the segments.
pub proof fn lemma_scope_of_first_segment(segments: Seq<SegmentModel>, class: Seq<PositionModel>)
    requires
        segments.len() > 0,
        is_class_of_scope(seq![segments[0]], class) || is_class_of_scope(
            segments.drop_first(),
            class,
        ),
    ensures
        is_class_of_scope(segments, class),
{
    let here = segment_scopes(segments[0]);
    let one = seq![segments[0]];
    lemma_scopes_of_one(segments[0]);
    if is_class_of_scope(one, class) {
        let (n, i) = choose|n: int, i: int|
            0 <= n < scopes_of(one).len() && 0 <= i < scopes_of(one)[n].index_declaration.len()
                && class == #[trigger] uses_in_scope(scopes_of(one)[n], i);
        assert(scopes_of(segments)[n] == here[n]);
        assert(class == uses_in_scope(scopes_of(segments)[n], i));
    } else {
        let rest = segments.drop_first();
        let (n, i) = choose|n: int, i: int|
            0 <= n < scopes_of(rest).len() && 0 <= i < scopes_of(rest)[n].index_declaration.len()
                && class == #[trigger] uses_in_scope(scopes_of(rest)[n], i);
        assert(scopes_of(segments)[n + here.len()] == scopes_of(rest)[n]);
        assert(class == uses_in_scope(scopes_of(segments)[n + here.len()], i));
    }
}

/// The segments of an expression finish no class but links and the classes
/// of the indexes of their scopes.
pub proof fn lemma_segments_add_explained(state: Inspection, segments: Seq<SegmentModel>)
    requires
        names_unique(state.active),
        run(state, segments_events(segments)) is Ok,
    ensures
        explained_from(
            run(state, segments_events(segments))->Ok_0.equivalences,
            state.equivalences.len() as int,
            segments,
        ),
    decreases segments, 1nat,
{
    if segments.len() > 0 {
        let first = segment_events(segments[0]);
        let rest = segments_events(segments.drop_first());
        let one = seq![segments[0]];
        lemma_run_concat(state, first, rest);
        let middle = run(state, first)->Ok_0;
        lemma_segment_adds_explained(state, segments[0]);
        lemma_run_keeps_names_unique(state, first);
        lemma_segments_add_explained(middle, segments.drop_first());
        lemma_classes_keep_their_places(state, first);
        lemma_classes_keep_their_places(middle, rest);
        let end = run(state, segments_events(segments))->Ok_0.equivalences;
        assert forall|c: int| state.equivalences.len() <= c < end.len() implies is_link(
            #[trigger] end[c],
        ) || is_class_of_scope(segments, end[c]) by {
            if c < middle.equivalences.len() {
                assert(end[c] == middle.equivalences[c]);
            }
            if !is_link(end[c]) {
                lemma_scope_of_first_segment(segments, end[c]);
            }
        }
    }
}

/// A segment of an expression finishes no class but links and the classes
/// of the indexes of its scopes.
pub proof fn lemma_segment_adds_explained(state: Inspection, segment: SegmentModel)
    requires
        names_unique(state.active),
        run(state, segment_events(segment)) is Ok,
    ensures
        explained_from(
            run(state, segment_events(segment))->Ok_0.equivalences,
            state.equivalences.len() as int,
            seq![segment],
        ),
    decreases segment, 0nat,
{
    let one = seq![segment];
    lemma_scopes_of_one(segment);
    let end = run(state, segment_events(segment))->Ok_0.equivalences;
    match segment {
        SegmentModel::TensorCall { tensor_name, indexers } => {
            lemma_indexers_add_links(state, indexers, tensor_name, 0, HeadKind::Tensor);
        },
        SegmentModel::SubLambda(lambda) => {
            let indexes = lambda.index_declaration;
            let opening = declarations(indexes);
            let body = segments_events(lambda.body.segments);
            let closing = seq![Event::Close(indexes)];
            lemma_run_concat(state, opening + body, closing);
            lemma_run_concat(state, opening, body);
            lemma_run_keeps_names_unique(state, opening);
            assert(opening.skip(0) =~= opening);
            lemma_declarations_add_nothing(state, indexes, 0);
            let opened = run(state, opening)->Ok_0;
            lemma_segments_add_explained(opened, lambda.body.segments);
            lemma_run_keeps_names_unique(opened, body);
            let walked = run(opened, body)->Ok_0;
            lemma_run_one(walked, Event::Close(indexes));
            let flushed = flushed_by_close(walked.active, indexes);
            assert forall|c: int| state.equivalences.len() <= c < end.len() implies is_link(
                #[trigger] end[c],
            ) || is_class_of_scope(one, end[c]) by {
                if c < walked.equivalences.len() {
                    assert(end[c] == walked.equivalences[c]);
                    if !is_link(end[c]) {
                        let inner = lambda.body.segments;
                        let (n, i) = choose|n: int, i: int|
                            0 <= n < scopes_of(inner).len() && 0 <= i < scopes_of(
                                inner,
                            )[n].index_declaration.len() && end[c] == #[trigger] uses_in_scope(
                                scopes_of(inner)[n],
                                i,
                            );
                        assert(scopes_of(one)[n + 1] == scopes_of(inner)[n]);
                        assert(end[c] == uses_in_scope(scopes_of(one)[n + 1], i));
                    }
                } else {
                    let k = c - walked.equivalences.len();
                    assert(end[c] == flushed[k]);
                    lemma_flushed_stem_from_indexes(walked.active, indexes, k, k);
                    let (a, b) = choose|a: int, b: int|
                        0 <= a <= b < walked.active.len() && (#[trigger] walked.active[a]).positions
                            == flushed[k] && (#[trigger] walked.active[b]).positions == flushed[k]
                            && walked.active[a].positions.len() > 0 && names_hold(
                            indexes,
                            walked.active[a].index.name,
                            0,
                        );
                    let name = walked.active[a].index.name;
                    lemma_names_hold(indexes, name, 0);
                    let i = choose|i: int| 0 <= i < indexes.len() && (#[trigger] indexes[i]).name == name;
                    lemma_after_declarations(state, indexes, i);
                    lemma_segments_leave_open(opened, lambda.body.segments, name);
                    lemma_run_collects_uses(opened, body, name);
                    lemma_record_at(walked.active, a);
                    assert(Seq::<PositionModel>::empty() + uses_of(body, name) =~= uses_of(
                        body,
                        name,
                    ));
                    assert(scopes_of(one)[0] == lambda);
                    assert(end[c] == uses_in_scope(scopes_of(one)[0], i));
                }
            }
        },
        SegmentModel::SubGroup { group, .. } => {
            lemma_segments_add_explained(state, group.segments);
            assert(scopes_of(one) =~= scopes_of(group.segments));
            assert forall|c: int| state.equivalences.len() <= c < end.len() implies is_link(
                #[trigger] end[c],
            ) || is_class_of_scope(one, end[c]) by {
                if !is_link(end[c]) {
                    let (n, i) = choose|n: int, i: int|
                        0 <= n < scopes_of(group.segments).len() && 0 <= i < scopes_of(
                            group.segments,
                        )[n].index_declaration.len() && end[c] == #[trigger] uses_in_scope(
                            scopes_of(group.segments)[n],
                            i,
                        );
                    assert(end[c] == uses_in_scope(scopes_of(one)[n], i));
                }
            }
        },
        SegmentModel::Token(_) => {},
    }
}

/// The classes that an inspection finds are these and no others: the links
/// of positions to what an indexing array returns, and for each scope of
/// the expression and each of its indexes that its body uses, the list of
/// the positions at which the body uses the index.
pub proof fn lemma_inspection_finds_nothing_else(group: GroupModel, c: int)
    requires
        inspect_spec(group) is Ok,
        0 <= c < inspect_spec(group)->Ok_0.equivalences.len(),
    ensures
        is_link(inspect_spec(group)->Ok_0.equivalences[c]) || is_class_of_scope(
            group.segments,
            inspect_spec(group)->Ok_0.equivalences[c],
        ),
{
    lemma_segments_add_explained(initial(), group.segments);
}

/// Whether the scope at `m` stands inside the scope at `n`, where both are
/// counted in the order in which the walk enters the scopes.
pub open spec fn encloses(scopes: Seq<LambdaModel>, n: int, m: int) -> bool {
    n < m < n + 1 + scopes_of(scopes[n].body.segments).len()
}

/// The scopes inside a scope of some segments are scopes of the segments,
/// and follow the scope at once.
pub proof fn lemma_inner_scopes_of_segments(segments: Seq<SegmentModel>, n: int, k: int)
    requires
        0 <= n < scopes_of(segments).len(),
        0 <= k < scopes_of(scopes_of(segments)[n].body.segments).len(),
    ensures
        n + 1 + k < scopes_of(segments).len(),
        scopes_of(segments)[n + 1 + k] == scopes_of(scopes_of(segments)[n].body.segments)[k],
    decreases segments, 1nat,
{
    let here = segment_scopes(segments[0]);
    if n < here.len() {
        lemma_inner_scopes_of_segment(segments[0], n, k);
        assert(scopes_of(segments)[n] == here[n]);
        assert(scopes_of(segments)[n + 1 + k] == here[n + 1 + k]);
    } else {
        let rest = scopes_of(segments.drop_first());
        assert(scopes_of(segments)[n] == rest[n - here.len()]);
        lemma_inner_scopes_of_segments(segments.drop_first(), n - here.len(), k);
        assert(scopes_of(segments)[n + 1 + k] == rest[n + 1 + k - here.len()]);
    }
}

/// The scopes inside a scope of a segment are scopes of the segment, and
/// follow the scope at once.
pub proof fn lemma_inner_scopes_of_segment(segment: SegmentModel, n: int, k: int)
    requires
        0 <= n < segment_scopes(segment).len(),
        0 <= k < scopes_of(segment_scopes(segment)[n].body.segments).len(),
    ensures
        n + 1 + k < segment_scopes(segment).len(),
        segment_scopes(segment)[n + 1 + k] == scopes_of(
            segment_scopes(segment)[n].body.segments,
        )[k],
    decreases segment, 0nat,
{
    match segment {
        SegmentModel::SubLambda(lambda) => {
            let inner = scopes_of(lambda.body.segments);
            if n == 0 {
                assert(segment_scopes(segment)[1 + k] == inner[k]);
            } else {
                assert(segment_scopes(segment)[n] == inner[n - 1]);
                lemma_inner_scopes_of_segments(lambda.body.segments, n - 1, k);
                assert(segment_scopes(segment)[n + 1 + k] == inner[n + k]);
            }
        },
        SegmentModel::SubGroup { group, .. } => {
            lemma_inner_scopes_of_segments(group.segments, n, k);
        },
        _ => {},
    }
}

/// Every scope of the segments `segments` that is walked without fault
/// gets the classes of its indexes while the segments are walked.
pub proof fn lemma_segments_finish_classes(state: Inspection, segments: Seq<SegmentModel>, n: int, i: int)
    requires
        names_unique(state.active),
        run(state, segments_events(segments)) is Ok,
        0 <= n < scopes_of(segments).len(),
        0 <= i < scopes_of(segments)[n].index_declaration.len(),
        uses_in_scope(scopes_of(segments)[n], i).len() > 0,
    ensures
        finished_from(
            run(state, segments_events(segments))->Ok_0.equivalences,
            state.equivalences.len() as int,
            uses_in_scope(scopes_of(segments)[n], i),
        ),
    decreases segments, 1nat,
{
    let first = segment_events(segments[0]);
    let rest = segments_events(segments.drop_first());
    lemma_run_concat(state, first, rest);
    let middle = run(state, first)->Ok_0;
    let end = run(state, segments_events(segments))->Ok_0.equivalences;
    let here = segment_scopes(segments[0]);
    lemma_classes_keep_their_places(state, first);
    lemma_classes_keep_their_places(middle, rest);
    if n < here.len() {
        assert(scopes_of(segments)[n] == here[n]);
        lemma_segment_finishes_classes(state, segments[0], n, i);
        let class = uses_in_scope(here[n], i);
        let c = choose|c: int|
            state.equivalences.len() <= c < middle.equivalences.len()
                && #[trigger] middle.equivalences[c] == class;
        assert(end[c] == class);
    } else {
        assert(scopes_of(segments)[n] == scopes_of(segments.drop_first())[n - here.len()]);
        lemma_run_keeps_names_unique(state, first);
        lemma_segments_finish_classes(middle, segments.drop_first(), n - here.len(), i);
        let class = uses_in_scope(scopes_of(segments)[n], i);
        let c = choose|c: int| middle.equivalences.len() <= c < end.len() && #[trigger] end[c] == class;
        assert(end[c] == class);
    }
}

/// Every scope of the segment `segment` that is walked without fault gets
/// the classes of its indexes while the segment is walked.
pub proof fn lemma_segment_finishes_classes(state: Inspection, segment: SegmentModel, n: int, i: int)
    requires
        names_unique(state.active),
        run(state, segment_events(segment)) is Ok,
        0 <= n < segment_scopes(segment).len(),
        0 <= i < segment_scopes(segment)[n].index_declaration.len(),
        uses_in_scope(segment_scopes(segment)[n], i).len() > 0,
    ensures
        finished_from(
            run(state, segment_events(segment))->Ok_0.equivalences,
            state.equivalences.len() as int,
            uses_in_scope(segment_scopes(segment)[n], i),
        ),
    decreases segment, 0nat,
{
    let end = run(state, segment_events(segment))->Ok_0.equivalences;
    match segment {
        SegmentModel::SubLambda(lambda) => {
            let opening = declarations(lambda.index_declaration);
            let body = segments_events(lambda.body.segments);
            let closing = seq![Event::Close(lambda.index_declaration)];
            lemma_run_concat(state, opening + body, closing);
            lemma_run_concat(state, opening, body);
            lemma_run_keeps_names_unique(state, opening);
            let opened = run(state, opening)->Ok_0;
            let walked = run(opened, body)->Ok_0;
            lemma_classes_keep_their_places(state, opening);
            lemma_classes_keep_their_places(opened, body);
            lemma_classes_keep_their_places(walked, closing);
            if n == 0 {
                lemma_class_lists_uses_in_order(state, lambda, i);
                let class = uses_in_scope(lambda, i);
                let c = choose|c: int|
                    walked.equivalences.len() <= c < end.len() && #[trigger] end[c] == class;
                assert(end[c] == class);
            } else {
                let inner = scopes_of(lambda.body.segments)[n - 1];
                assert(segment_scopes(segment)[n] == inner);
                lemma_segments_finish_classes(opened, lambda.body.segments, n - 1, i);
                let class = uses_in_scope(inner, i);
                let c = choose|c: int|
                    opened.equivalences.len() <= c < walked.equivalences.len()
                        && #[trigger] walked.equivalences[c] == class;
                assert(end[c] == class);
            }
        },
        SegmentModel::SubGroup { group, .. } => {
            lemma_segments_finish_classes(state, group.segments, n, i);
        },
        _ => {},
    }
}

/// What the order of the classes of two scopes is: the classes of a scope
/// that stands inside another come before the classes of that other, and
/// otherwise the classes of the scope that the walk enters first come
/// first.
pub open spec fn in_closing_order(
    classes: Seq<Seq<PositionModel>>,
    scopes: Seq<LambdaModel>,
    n: int,
    i: int,
    m: int,
    j: int,
) -> bool {
    if encloses(scopes, n, m) {
        comes_before(classes, uses_in_scope(scopes[m], j), uses_in_scope(scopes[n], i))
    } else {
        comes_before(classes, uses_in_scope(scopes[n], i), uses_in_scope(scopes[m], j))
    }
}

/// A class that was finished before comes before a class that is finished
/// after.
pub proof fn lemma_finished_in_turn(
    classes: Seq<Seq<PositionModel>>,
    middle: int,
    first: Seq<PositionModel>,
    second: Seq<PositionModel>,
)
    requires
        exists|c: int| 0 <= c < middle && c < classes.len() && #[trigger] classes[c] == first,
        finished_from(classes, middle, second),
    ensures
        comes_before(classes, first, second),
{
    let c = choose|c: int| 0 <= c < middle && c < classes.len() && #[trigger] classes[c] == first;
    let d = choose|d: int| middle <= d < classes.len() && #[trigger] classes[d] == second;
    assert(classes[c] == first && classes[d] == second && c < d);
}

/// The classes of the scopes of the segments `segments` come in the order
/// in which the scopes close.
pub proof fn lemma_segments_order_scopes(
    state: Inspection,
    segments: Seq<SegmentModel>,
    n: int,
    i: int,
    m: int,
    j: int,
)
    requires
        names_unique(state.active),
        run(state, segments_events(segments)) is Ok,
        0 <= n < m < scopes_of(segments).len(),
        0 <= i < scopes_of(segments)[n].index_declaration.len(),
        0 <= j < scopes_of(segments)[m].index_declaration.len(),
        uses_in_scope(scopes_of(segments)[n], i).len() > 0,
        uses_in_scope(scopes_of(segments)[m], j).len() > 0,
    ensures
        in_closing_order(
            run(state, segments_events(segments))->Ok_0.equivalences,
            scopes_of(segments),
            n,
            i,
            m,
            j,
        ),
    decreases segments, 1nat,
{
    let first = segment_events(segments[0]);
    let rest = segments_events(segments.drop_first());
    lemma_run_concat(state, first, rest);
    let middle = run(state, first)->Ok_0;
    let end = run(state, segments_events(segments))->Ok_0.equivalences;
    let here = segment_scopes(segments[0]);
    let scopes = scopes_of(segments);
    let later = scopes_of(segments.drop_first());
    lemma_classes_keep_their_places(state, first);
    lemma_classes_keep_their_places(middle, rest);
    lemma_run_keeps_names_unique(state, first);
    if m < here.len() {
        assert(scopes[n] == here[n]);
        assert(scopes[m] == here[m]);
        lemma_segment_orders_scopes(state, segments[0], n, i, m, j);
        if encloses(here, n, m) {
            lemma_order_of_classes_stays(
                middle,
                rest,
                uses_in_scope(here[m], j),
                uses_in_scope(here[n], i),
            );
        } else {
            lemma_order_of_classes_stays(
                middle,
                rest,
                uses_in_scope(here[n], i),
                uses_in_scope(here[m], j),
            );
        }
    } else if n < here.len() {
        assert(scopes[n] == here[n]);
        assert(scopes[m] == later[m - here.len()]);
        if scopes_of(here[n].body.segments).len() > 0 {
            lemma_inner_scopes_of_segment(
                segments[0],
                n,
                scopes_of(here[n].body.segments).len() - 1,
            );
        }
        assert(!encloses(scopes, n, m));
        lemma_segment_finishes_classes(state, segments[0], n, i);
        lemma_segments_finish_classes(middle, segments.drop_first(), m - here.len(), j);
        let class = uses_in_scope(here[n], i);
        let c = choose|c: int|
            state.equivalences.len() <= c < middle.equivalences.len()
                && #[trigger] middle.equivalences[c] == class;
        assert(end[c] == class);
        lemma_finished_in_turn(
            end,
            middle.equivalences.len() as int,
            class,
            uses_in_scope(scopes[m], j),
        );
    } else {
        assert(scopes[n] == later[n - here.len()]);
        assert(scopes[m] == later[m - here.len()]);
        lemma_segments_order_scopes(
            middle,
            segments.drop_first(),
            n - here.len(),
            i,
            m - here.len(),
            j,
        );
    }
}

/// The classes of the scopes of the segment `segment` come in the order in
/// which the scopes close.
pub proof fn lemma_segment_orders_scopes(
    state: Inspection,
    segment: SegmentModel,
    n: int,
    i: int,
    m: int,
    j: int,
)
    requires
        names_unique(state.active),
        run(state, segment_events(segment)) is Ok,
        0 <= n < m < segment_scopes(segment).len(),
        0 <= i < segment_scopes(segment)[n].index_declaration.len(),
        0 <= j < segment_scopes(segment)[m].index_declaration.len(),
        uses_in_scope(segment_scopes(segment)[n], i).len() > 0,
        uses_in_scope(segment_scopes(segment)[m], j).len() > 0,
    ensures
        in_closing_order(
            run(state, segment_events(segment))->Ok_0.equivalences,
            segment_scopes(segment),
            n,
            i,
            m,
            j,
        ),
    decreases segment, 0nat,
{
    let end = run(state, segment_events(segment))->Ok_0.equivalences;
    let scopes = segment_scopes(segment);
    match segment {
        SegmentModel::SubLambda(lambda) => {
            let opening = declarations(lambda.index_declaration);
            let body = segments_events(lambda.body.segments);
            let closing = seq![Event::Close(lambda.index_declaration)];
            let inner = scopes_of(lambda.body.segments);
            lemma_run_concat(state, opening + body, closing);
            lemma_run_concat(state, opening, body);
            lemma_run_keeps_names_unique(state, opening);
            let opened = run(state, opening)->Ok_0;
            let walked = run(opened, body)->Ok_0;
            lemma_classes_keep_their_places(walked, closing);
            assert(scopes[m] == inner[m - 1]);
            if n == 0 {
                assert(encloses(scopes, n, m));
                lemma_segments_finish_classes(opened, lambda.body.segments, m - 1, j);
                lemma_class_lists_uses_in_order(state, lambda, i);
                let class = uses_in_scope(inner[m - 1], j);
                let c = choose|c: int|
                    opened.equivalences.len() <= c < walked.equivalences.len()
                        && #[trigger] walked.equivalences[c] == class;
                assert(end[c] == class);
                lemma_finished_in_turn(
                    end,
                    walked.equivalences.len() as int,
                    class,
                    uses_in_scope(lambda, i),
                );
            } else {
                assert(scopes[n] == inner[n - 1]);
                lemma_segments_order_scopes(opened, lambda.body.segments, n - 1, i, m - 1, j);
                if encloses(inner, n - 1, m - 1) {
                    lemma_order_of_classes_stays(
                        walked,
                        closing,
                        uses_in_scope(inner[m - 1], j),
                        uses_in_scope(inner[n - 1], i),
                    );
                } else {
                    lemma_order_of_classes_stays(
                        walked,
                        closing,
                        uses_in_scope(inner[n - 1], i),
                        uses_in_scope(inner[m - 1], j),
                    );
                }
            }
        },
        SegmentModel::SubGroup { group, .. } => {
            lemma_segments_order_scopes(state, group.segments, n, i, m, j);
        },
        _ => {},
    }
}

/// The classes of different scopes come in the order in which the scopes
/// close: in an expression that is inspected without fault, the classes of
/// a scope that stands inside another come before the classes of that
/// other, and otherwise the classes of the scope that comes first come
/// first.
pub proof fn lemma_inspection_orders_scopes_by_closing(
    group: GroupModel,
    n: int,
    i: int,
    m: int,
    j: int,
)
    requires
        inspect_spec(group) is Ok,
        0 <= n < m < scopes_of(group.segments).len(),
        0 <= i < scopes_of(group.segments)[n].index_declaration.len(),
        0 <= j < scopes_of(group.segments)[m].index_declaration.len(),
        uses_in_scope(scopes_of(group.segments)[n], i).len() > 0,
        uses_in_scope(scopes_of(group.segments)[m], j).len() > 0,
    ensures
        in_closing_order(
            inspect_spec(group)->Ok_0.equivalences,
            scopes_of(group.segments),
            n,
            i,
            m,
            j,
        ),
{
    lemma_segments_order_scopes(initial(), group.segments, n, i, m, j);
}

/// Noting a use opens no index and closes none.
pub proof fn lemma_use_keeps_open_names(active: Seq<RecordModel>, k: int, at: PositionModel, name: Seq<char>)
    requires
        0 <= k < active.len(),
    ensures
        is_open(used(active, k, at), name) <==> is_open(active, name),
{
    let next = used(active, k, at);
    if is_open(active, name) {
        let j = choose|j: int| 0 <= j < active.len() && (#[trigger] active[j]).index.name == name;
        if active[k].positions.len() == 0 {
            let moved = if j == k {
                next.len() - 1
            } else if j < k {
                j
            } else {
                j - 1
            };
            assert(next[moved].index.name == name);
        } else {
            assert(next[j].index.name == name);
        }
    }
    if is_open(next, name) {
        let j = choose|j: int| 0 <= j < next.len() && (#[trigger] next[j]).index.name == name;
        if active[k].positions.len() == 0 {
            let came = if j == next.len() - 1 {
                k
            } else if j < k {
                j
            } else {
                j + 1
            };
            assert(active[came].index.name == name);
        } else {
            assert(active[j].index.name == name);
        }
    }
}

/// The indexers of an array access open no index.
pub proof fn lemma_indexer_opens_nothing(
    state: Inspection,
    x: IndexerModel,
    head: IdentModel,
    position: int,
    kind: HeadKind,
    name: Seq<char>,
)
    requires
        !is_open(state.active, name),
        run(state, indexer_events(x, head, position, kind)) is Ok,
    ensures
        !is_open(run(state, indexer_events(x, head, position, kind))->Ok_0.active, name),
    decreases x, 0nat,
{
    let events = indexer_events(x, head, position, kind);
    match x {
        IndexerModel::Reindexing { reindexing_name, indexers } => {
            let link = seq![
                Event::Link {
                    at: crate::inspection::position_of(head, position, kind),
                    through: reindexing_name,
                },
            ];
            let inner = indexers_events(indexers, reindexing_name, 0, HeadKind::Indexer);
            lemma_run_concat(state, link, inner);
            lemma_run_one(state, link[0]);
            lemma_indexers_open_nothing(
                run(state, link)->Ok_0,
                indexers,
                reindexing_name,
                0,
                HeadKind::Indexer,
                name,
            );
        },
        IndexerModel::Plain { .. } => {
            lemma_run_one(state, events[0]);
        },
        _ => {
            lemma_run_one(state, events[0]);
            let index = events[0]->Use_index;
            lemma_name_index(state.active, index.name, 0);
            let k = name_index(state.active, index.name, 0)->Some_0;
            lemma_use_keeps_open_names(state.active, k, events[0]->Use_at, name);
        },
    }
}

/// The indexers of an array access open no index.
pub proof fn lemma_indexers_open_nothing(
    state: Inspection,
    s: Seq<IndexerModel>,
    head: IdentModel,
    from: int,
    kind: HeadKind,
    name: Seq<char>,
)
    requires
        !is_open(state.active, name),
        run(state, indexers_events(s, head, from, kind)) is Ok,
    ensures
        !is_open(run(state, indexers_events(s, head, from, kind))->Ok_0.active, name),
    decreases s, 1nat,
{
    if s.len() > 0 {
        let first = indexer_events(s[0], head, from, kind);
        let rest = indexers_events(s.drop_first(), head, from + 1, kind);
        lemma_run_concat(state, first, rest);
        lemma_indexer_opens_nothing(state, s[0], head, from, kind, name);
        lemma_indexers_open_nothing(run(state, first)->Ok_0, s.drop_first(), head, from + 1, kind, name);
    }
}

/// The header of a scope opens no index but those that it declares.
pub proof fn lemma_declarations_open_only_theirs(
    state: Inspection,
    indexes: Seq<IdentModel>,
    from: int,
    name: Seq<char>,
)
    requires
        0 <= from <= indexes.len(),
        !is_open(state.active, name),
        !is_among(indexes, name),
        run(state, declarations(indexes).skip(from)) is Ok,
    ensures
        !is_open(run(state, declarations(indexes).skip(from))->Ok_0.active, name),
    decreases indexes.len() - from,
{
    let events = declarations(indexes).skip(from);
    if from < indexes.len() {
        assert(events.drop_first() =~= declarations(indexes).skip(from + 1));
        assert(events[0] == Event::Declare(indexes[from]));
        let next = step(state, events[0])->Ok_0;
        assert(indexes[from].name != name);
        assert forall|k: int| 0 <= k < next.active.len() implies (#[trigger] next.active[k]).index.name
            != name by {
            if k < state.active.len() {
                assert(next.active[k] == state.active[k]);
            }
        }
        lemma_declarations_open_only_theirs(next, indexes, from + 1, name);
    }
}

/// What stays open when a scope closes was open before.
pub proof fn lemma_close_opens_nothing(active: Seq<RecordModel>, names: Seq<IdentModel>, name: Seq<char>)
    requires
        !is_open(active, name),
    ensures
        !is_open(kept_after_close(active, names), name),
{
    let kept = kept_after_close(active, names);
    assert forall|k: int| 0 <= k < kept.len() implies (#[trigger] kept[k]).index.name != name by {
        crate::inspection::laws::lemma_kept_was_open(active, names, k);
        let j = choose|j: int| 0 <= j < active.len() && #[trigger] active[j] == kept[k];
        assert(active[j].index.name != name);
    }
}

/// Segments that are walked without fault leave no index open that was
/// not open before: every scope that opens in them closes in them.
pub proof fn lemma_segments_open_nothing(state: Inspection, segments: Seq<SegmentModel>, name: Seq<char>)
    requires
        names_unique(state.active),
        !is_open(state.active, name),
        run(state, segments_events(segments)) is Ok,
    ensures
        !is_open(run(state, segments_events(segments))->Ok_0.active, name),
    decreases segments, 1nat,
{
    if segments.len() > 0 {
        let first = segment_events(segments[0]);
        let rest = segments_events(segments.drop_first());
        lemma_run_concat(state, first, rest);
        lemma_segment_opens_nothing(state, segments[0], name);
        lemma_run_keeps_names_unique(state, first);
        lemma_segments_open_nothing(run(state, first)->Ok_0, segments.drop_first(), name);
    }
}

/// A segment that is walked without fault leaves no index open that was
/// not open before.
pub proof fn lemma_segment_opens_nothing(state: Inspection, segment: SegmentModel, name: Seq<char>)
    requires
        names_unique(state.active),
        !is_open(state.active, name),
        run(state, segment_events(segment)) is Ok,
    ensures
        !is_open(run(state, segment_events(segment))->Ok_0.active, name),
    decreases segment, 0nat,
{
    match segment {
        SegmentModel::TensorCall { tensor_name, indexers } => {
            lemma_indexers_open_nothing(state, indexers, tensor_name, 0, HeadKind::Tensor, name);
        },
        SegmentModel::SubLambda(lambda) => {
            let indexes = lambda.index_declaration;
            let opening = declarations(indexes);
            let body = segments_events(lambda.body.segments);
            let closing = seq![Event::Close(indexes)];
            lemma_run_concat(state, opening + body, closing);
            lemma_run_concat(state, opening, body);
            lemma_run_keeps_names_unique(state, opening);
            let opened = run(state, opening)->Ok_0;
            let walked = run(opened, body)->Ok_0;
            lemma_run_one(walked, Event::Close(indexes));
            if is_among(indexes, name) {
                crate::inspection::laws::lemma_closed_index_is_not_open(walked, indexes, name);
            } else {
                assert(opening.skip(0) =~= opening);
                lemma_declarations_open_only_theirs(state, indexes, 0, name);
                lemma_segments_open_nothing(opened, lambda.body.segments, name);
                lemma_close_opens_nothing(walked.active, indexes, name);
            }
        },
        SegmentModel::SubGroup { group, .. } => {
            lemma_segments_open_nothing(state, group.segments, name);
        },
        SegmentModel::Token(_) => {},
    }
}

/// After a walk the table holds the names that it held before: segments
/// that are walked without fault close every scope that they open, and
/// leave open every index that was open before.
pub proof fn lemma_walk_restores_open_names(state: Inspection, segments: Seq<SegmentModel>, name: Seq<char>)
    requires
        names_unique(state.active),
        run(state, segments_events(segments)) is Ok,
    ensures
        is_open(run(state, segments_events(segments))->Ok_0.active, name) <==> is_open(
            state.active,
            name,
        ),
{
    if is_open(state.active, name) {
        lemma_segments_leave_open(state, segments, name);
        lemma_run_collects_uses(state, segments_events(segments), name);
    } else {
        lemma_segments_open_nothing(state, segments, name);
    }
}

} // verus!
