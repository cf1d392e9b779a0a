use crate::memory::reader::{events_since, lemma_events_chain, lemma_no_events, ReadEvent};
use vstd::prelude::*;

verus! {

/// `events` begins with one stretch of requests for each of `values`, in
/// order: `cuts` says where in `events` each stretch starts, and its last
/// entry where the last stretch ends. `step(i, stretch, value)` says what
/// stretch `i` did to arrive at `values[i]`.
pub open spec fn segments<V>(
    values: Seq<V>,
    cuts: Seq<int>,
    events: Seq<ReadEvent>,
    step: spec_fn(int, Seq<ReadEvent>, V) -> bool,
) -> bool {
    &&& cuts.len() == values.len() + 1
    &&& cuts[0] == 0
    &&& cuts.last() <= events.len()
    &&& forall|i: int|
        0 <= i < values.len() ==> {
            &&& cuts[i] <= #[trigger] cuts[i + 1]
            &&& step(i, events.subrange(cuts[i], cuts[i + 1]), values[i])
        }
}

/// The cuts never run backwards, and none lies beyond the last.
pub proof fn lemma_cuts_ordered<V>(
    values: Seq<V>,
    cuts: Seq<int>,
    events: Seq<ReadEvent>,
    step: spec_fn(int, Seq<ReadEvent>, V) -> bool,
    index: int,
)
    requires
        segments(values, cuts, events, step),
        0 <= index <= values.len(),
    ensures
        0 <= cuts[index] <= cuts.last() <= events.len(),
{
    lemma_cuts_from_zero(values, cuts, events, step, index);
    lemma_cuts_to_last(values, cuts, events, step, index);
}

proof fn lemma_cuts_from_zero<V>(
    values: Seq<V>,
    cuts: Seq<int>,
    events: Seq<ReadEvent>,
    step: spec_fn(int, Seq<ReadEvent>, V) -> bool,
    index: int,
)
    requires
        segments(values, cuts, events, step),
        0 <= index <= values.len(),
    ensures
        0 <= cuts[index],
    decreases index,
{
    if index > 0 {
        lemma_cuts_from_zero(values, cuts, events, step, index - 1);
        assert(cuts[index - 1] <= cuts[index - 1 + 1]);
    }
}

proof fn lemma_cuts_to_last<V>(
    values: Seq<V>,
    cuts: Seq<int>,
    events: Seq<ReadEvent>,
    step: spec_fn(int, Seq<ReadEvent>, V) -> bool,
    index: int,
)
    requires
        segments(values, cuts, events, step),
        0 <= index <= values.len(),
    ensures
        cuts[index] <= cuts.last(),
    decreases values.len() - index,
{
    if index < values.len() {
        lemma_cuts_to_last(values, cuts, events, step, index + 1);
        assert(cuts[index] <= cuts[index + 1]);
    }
}

/// Stretches that were read stay read when more requests follow, and under
/// any description of the steps that agrees on them.
pub proof fn lemma_segments_extend<V>(
    values: Seq<V>,
    cuts: Seq<int>,
    events: Seq<ReadEvent>,
    step: spec_fn(int, Seq<ReadEvent>, V) -> bool,
    more: Seq<ReadEvent>,
    more_step: spec_fn(int, Seq<ReadEvent>, V) -> bool,
)
    requires
        segments(values, cuts, events, step),
        events.is_prefix_of(more),
        forall|i: int, stretch: Seq<ReadEvent>|
            0 <= i < values.len() && #[trigger] step(i, stretch, values[i]) ==> more_step(i, stretch, values[i]),
    ensures
        segments(values, cuts, more, more_step),
{
    lemma_cuts_ordered(values, cuts, events, step, values.len() as int);
    assert forall|i: int| 0 <= i < values.len() implies {
        &&& cuts[i] <= #[trigger] cuts[i + 1]
        &&& more_step(i, more.subrange(cuts[i], cuts[i + 1]), values[i])
    } by {
        lemma_cuts_ordered(values, cuts, events, step, i);
        lemma_cuts_ordered(values, cuts, events, step, i + 1);
        assert(cuts[i] <= cuts[i + 1]);
        assert(more.subrange(cuts[i], cuts[i + 1]) =~= events.subrange(cuts[i], cuts[i + 1]));
        assert(step(i, events.subrange(cuts[i], cuts[i + 1]), values[i]));
    }
}

/// One more stretch after the stretches so far.
pub proof fn lemma_segments_push<V>(
    values: Seq<V>,
    cuts: Seq<int>,
    events: Seq<ReadEvent>,
    step: spec_fn(int, Seq<ReadEvent>, V) -> bool,
    more: Seq<ReadEvent>,
    more_step: spec_fn(int, Seq<ReadEvent>, V) -> bool,
    value: V,
)
    requires
        segments(values, cuts, events, step),
        cuts.last() == events.len(),
        events.is_prefix_of(more),
        forall|i: int, stretch: Seq<ReadEvent>|
            0 <= i < values.len() && #[trigger] step(i, stretch, values[i]) ==> more_step(i, stretch, values[i]),
        more_step(values.len() as int, more.skip(events.len() as int), value),
    ensures
        segments(values.push(value), cuts.push(more.len() as int), more, more_step),
{
    lemma_segments_extend(values, cuts, events, step, more, more_step);
    let new_values = values.push(value);
    let new_cuts = cuts.push(more.len() as int);
    assert forall|i: int| 0 <= i < new_values.len() implies {
        &&& new_cuts[i] <= #[trigger] new_cuts[i + 1]
        &&& more_step(i, more.subrange(new_cuts[i], new_cuts[i + 1]), new_values[i])
    } by {
        if i < values.len() {
            assert(cuts[i] <= cuts[i + 1]);
            assert(new_cuts[i] == cuts[i]);
            assert(new_cuts[i + 1] == cuts[i + 1]);
        } else {
            assert(more.subrange(new_cuts[i], new_cuts[i + 1]) =~= more.skip(events.len() as int));
        }
    }
}

/// Before anything is read, no stretch has been read.
pub proof fn lemma_segments_empty<V>(events: Seq<ReadEvent>, step: spec_fn(int, Seq<ReadEvent>, V) -> bool)
    ensures
        segments(Seq::<V>::empty(), seq![0int], events, step),
{
}

/// `events` begins with `count` stretches of requests, one after the other:
/// `cuts` says where in `events` each stretch starts, and its last entry where
/// the last stretch ends. `step(i, stretch)` says what stretch `i` did.
pub open spec fn stretches(
    count: int,
    cuts: Seq<int>,
    events: Seq<ReadEvent>,
    step: spec_fn(int, Seq<ReadEvent>) -> bool,
) -> bool {
    &&& count >= 0
    &&& cuts.len() == count + 1
    &&& cuts[0] == 0
    &&& cuts.last() <= events.len()
    &&& forall|i: int|
        0 <= i < count ==> {
            &&& cuts[i] <= #[trigger] cuts[i + 1]
            &&& step(i, events.subrange(cuts[i], cuts[i + 1]))
        }
}

/// The cuts of stretches never run backwards, and none lies beyond the last.
pub proof fn lemma_stretch_cuts_ordered(
    count: int,
    cuts: Seq<int>,
    events: Seq<ReadEvent>,
    step: spec_fn(int, Seq<ReadEvent>) -> bool,
    index: int,
)
    requires
        stretches(count, cuts, events, step),
        0 <= index <= count,
    ensures
        0 <= cuts[index] <= cuts.last() <= events.len(),
{
    lemma_stretch_cuts_from_zero(count, cuts, events, step, index);
    lemma_stretch_cuts_to_last(count, cuts, events, step, index);
}

proof fn lemma_stretch_cuts_from_zero(
    count: int,
    cuts: Seq<int>,
    events: Seq<ReadEvent>,
    step: spec_fn(int, Seq<ReadEvent>) -> bool,
    index: int,
)
    requires
        stretches(count, cuts, events, step),
        0 <= index <= count,
    ensures
        0 <= cuts[index],
    decreases index,
{
    if index > 0 {
        lemma_stretch_cuts_from_zero(count, cuts, events, step, index - 1);
        assert(cuts[index - 1] <= cuts[index - 1 + 1]);
    }
}

proof fn lemma_stretch_cuts_to_last(
    count: int,
    cuts: Seq<int>,
    events: Seq<ReadEvent>,
    step: spec_fn(int, Seq<ReadEvent>) -> bool,
    index: int,
)
    requires
        stretches(count, cuts, events, step),
        0 <= index <= count,
    ensures
        cuts[index] <= cuts.last(),
    decreases count - index,
{
    if index < count {
        lemma_stretch_cuts_to_last(count, cuts, events, step, index + 1);
        assert(cuts[index] <= cuts[index + 1]);
    }
}

/// Before anything is read, no stretch has been read.
pub proof fn lemma_stretches_empty(events: Seq<ReadEvent>, step: spec_fn(int, Seq<ReadEvent>) -> bool)
    ensures
        stretches(0, seq![0int], events, step),
{
}

/// One more stretch after the stretches so far.
pub proof fn lemma_stretches_push(
    count: int,
    cuts: Seq<int>,
    events: Seq<ReadEvent>,
    more: Seq<ReadEvent>,
    step: spec_fn(int, Seq<ReadEvent>) -> bool,
)
    requires
        stretches(count, cuts, events, step),
        cuts.last() == events.len(),
        events.is_prefix_of(more),
        step(count, more.skip(events.len() as int)),
    ensures
        stretches(count + 1, cuts.push(more.len() as int), more, step),
{
    let new_cuts = cuts.push(more.len() as int);
    assert forall|i: int| 0 <= i < count + 1 implies {
        &&& new_cuts[i] <= #[trigger] new_cuts[i + 1]
        &&& step(i, more.subrange(new_cuts[i], new_cuts[i + 1]))
    } by {
        if i < count {
            lemma_stretch_cuts_ordered(count, cuts, events, step, i);
            lemma_stretch_cuts_ordered(count, cuts, events, step, i + 1);
            assert(cuts[i] <= cuts[i + 1]);
            assert(new_cuts[i] == cuts[i]);
            assert(new_cuts[i + 1] == cuts[i + 1]);
            assert(more.subrange(cuts[i], cuts[i + 1]) =~= events.subrange(cuts[i], cuts[i + 1]));
        } else {
            assert(more.subrange(new_cuts[i], new_cuts[i + 1]) =~= more.skip(events.len() as int));
        }
    }
}

/// A history that grew in two steps grew.
pub proof fn lemma_prefix_trans(first: Seq<ReadEvent>, middle: Seq<ReadEvent>, last: Seq<ReadEvent>)
    requires
        first.is_prefix_of(middle),
        middle.is_prefix_of(last),
    ensures
        first.is_prefix_of(last),
{
}

/// What was added to a history after a state in the middle is the end of
/// what was added from the start.
pub proof fn lemma_fails_later(first: Seq<ReadEvent>, middle: Seq<ReadEvent>, last: Seq<ReadEvent>)
    requires
        first.is_prefix_of(middle),
        middle.is_prefix_of(last),
    ensures
        first.is_prefix_of(last),
        events_since(first, last).len() == events_since(first, middle).len() + events_since(middle, last).len(),
        events_since(first, last).skip(events_since(first, middle).len() as int) == events_since(middle, last),
{
    lemma_events_chain(first, middle, last);
}

/// When a history grew through the states `histories`, and stretch `i` is
/// what was added from state `i` to state `i + 1`, the whole of what was
/// added is those stretches one after the other.
pub proof fn lemma_stretches_chain(
    count: int,
    histories: Seq<Seq<ReadEvent>>,
    step: spec_fn(int, Seq<ReadEvent>) -> bool,
) -> (cuts: Seq<int>)
    requires
        0 <= count,
        histories.len() > count,
        forall|i: int|
            0 <= i < count ==> (#[trigger] histories[i]).is_prefix_of(histories[i + 1]) && step(
                i,
                events_since(histories[i], histories[i + 1]),
            ),
    ensures
        histories[0].is_prefix_of(histories[count]),
        stretches(count, cuts, events_since(histories[0], histories[count]), step),
        cuts.last() == events_since(histories[0], histories[count]).len(),
    decreases count,
{
    if count == 0 {
        lemma_no_events(histories[0]);
        seq![0int]
    } else {
        let shorter = lemma_stretches_chain(count - 1, histories, step);
        assert(histories[count - 1].is_prefix_of(histories[count - 1 + 1]));
        lemma_events_chain(histories[0], histories[count - 1], histories[count]);
        lemma_stretches_push(
            count - 1,
            shorter,
            events_since(histories[0], histories[count - 1]),
            events_since(histories[0], histories[count]),
            step,
        );
        shorter.push(events_since(histories[0], histories[count]).len() as int)
    }
}

} // verus!
