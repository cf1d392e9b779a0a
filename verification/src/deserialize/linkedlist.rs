use crate::memory::address::Address;
use crate::memory::reader::{events_since, lemma_events_chain, lemma_no_events, MemoryReader, ReadEvent};
use super::cursor::{field_context_text, field_step, FieldCursor};
use super::deserializetrait::{lemma_small_powers_of_two, Deserialize};
use super::error::Error;
use super::layout::{end_after, fields_aligned, FieldLayout};
use super::segments::{
    lemma_prefix_trans, lemma_segments_extend, lemma_segments_push, lemma_stretches_chain, segments,
    stretches,
};
use vstd::prelude::*;
use vstd::string::StringExecFns;

verus! {

/// The largest number of nodes that is followed before a list is given up as
/// one that does not end.
pub const MAX_LIST_LENGTH: usize = usize::MAX;

/// A value that is linked to a value of the same kind: it holds the address
/// of the value that follows, or zero when none follows.
pub trait Linked: Sized {
    /// The address of the value that follows, or zero.
    spec fn spec_next(&self) -> usize;

    /// The address of the value that follows, or zero.
    fn next(&self) -> (r: usize)
        ensures
            r == self.spec_next(),
    ;

    /// What reading such a value at `address` does: it makes exactly the
    /// requests in `events`, in that order, and from their answers arrives at
    /// `outcome`.
    spec fn reads(address: Address, events: Seq<ReadEvent>, outcome: Result<Self, Error>) -> bool;

    /// Reads such a value at `address`.
    fn read<M: MemoryReader>(reader: &mut M, address: Address) -> (r: Result<Self, Error>)
        ensures
            old(reader).history().is_prefix_of(final(reader).history()),
            Self::reads(address, events_since(old(reader).history(), final(reader).history()), r),
    ;
}

/// One node of a singly linked list in the other process: a value, and the
/// address of the node that follows, or zero after the last node.
pub struct Node<T: Deserialize> {
    pub value: T,
    pub next: usize,
}


impl<T: Deserialize> Node<T> {
    /// The layout of field `index`, in declaration order.
    pub open spec fn field_layout(index: int) -> FieldLayout {
        if index == 0 {
            FieldLayout::spec_of::<T>()
        } else {
            FieldLayout::spec_of::<usize>()
        }
    }

    /// The layouts of the fields, in declaration order.
    pub open spec fn fields() -> Seq<FieldLayout> {
        Seq::new(2, |index: int| Self::field_layout(index))
    }

    /// Where the fields before field `index` end, in a structure at `address`.
    pub open spec fn end_before(address: Address, index: int) -> int {
        end_after(address@, Self::fields(), index)
    }

    /// What the reading of field `index` did to arrive at that field of `value`.
    /// Kept out of sight of the prover until it is revealed.
    #[verifier::opaque]
    pub open spec fn field_read(address: Address, value: Self, index: int, events: Seq<ReadEvent>) -> bool {
        if index == 0 {
            field_step::<T>(
                address,
                Self::end_before(address, 0),
                field_context_text("Node"@, "value"@),
                events,
                Ok(value.value),
            )
        } else {
            field_step::<usize>(
                address,
                Self::end_before(address, 1),
                field_context_text("Node"@, "next"@),
                events,
                Ok(value.next),
            )
        }
    }

    /// What the reading of field `index` did to fail with `error`. Kept out of
    /// sight of the prover until it is revealed.
    #[verifier::opaque]
    pub open spec fn field_fails(address: Address, index: int, events: Seq<ReadEvent>, error: Error) -> bool {
        if index == 0 {
            field_step::<T>(
                address,
                Self::end_before(address, 0),
                field_context_text("Node"@, "value"@),
                events,
                Err(error),
            )
        } else {
            field_step::<usize>(
                address,
                Self::end_before(address, 1),
                field_context_text("Node"@, "next"@),
                events,
                Err(error),
            )
        }
    }

    /// What the reading of each field did, for the fields of `value`.
    pub open spec fn fields_read(address: Address, value: Self) -> spec_fn(int, Seq<ReadEvent>) -> bool {
        |index: int, events: Seq<ReadEvent>| Self::field_read(address, value, index, events)
    }

    /// The fields of `value` were read in declaration order, each at the end of
    /// the one before it rounded up to its own alignment, with exactly the
    /// requests in `events`.
    pub open spec fn reads_fields(address: Address, events: Seq<ReadEvent>, value: Self) -> bool {
        exists|cuts: Seq<int>| #[trigger]
            stretches(2, cuts, events, Self::fields_read(address, value)) && cuts.last() == events.len()
    }

    /// The reading ended with a field that could not be read: `error` is that
    /// field's error, wrapped in a context that names the field.
    pub open spec fn fails_at_field(address: Address, events: Seq<ReadEvent>, error: Error) -> bool {
        exists|index: int, cut: int|
            0 <= index < 2 && 0 <= cut <= events.len() && #[trigger] Self::field_fails(
                address,
                index,
                events.skip(cut),
                error,
            )
    }

    /// When a history grew through one state for each field, and what was added
    /// from each state to the next is the reading of that field of `value`, the
    /// whole of what was added is the reading of `value`.
    pub proof fn lemma_reads_fields(address: Address, value: Self, histories: Seq<Seq<ReadEvent>>)
        requires
            histories.len() == 3,
            forall|i: int|
                0 <= i < 2 ==> (#[trigger] histories[i]).is_prefix_of(histories[i + 1]) && Self::field_read(
                    address,
                    value,
                    i,
                    events_since(histories[i], histories[i + 1]),
                ),
        ensures
            Self::reads_fields(address, events_since(histories[0], histories[2]), value),
    {
        let step = Self::fields_read(address, value);
        assert forall|i: int| 0 <= i < 2 implies (#[trigger] histories[i]).is_prefix_of(histories[i + 1]) && step(
            i,
            events_since(histories[i], histories[i + 1]),
        ) by {
            assert(Self::field_read(address, value, i, events_since(histories[i], histories[i + 1])));
        }
        let cuts = lemma_stretches_chain(2, histories, step);
        assert(stretches(2, cuts, events_since(histories[0], histories[2]), Self::fields_read(address, value)));
    }

    /// The size and alignment of the structure are those of its fields laid
    /// out in declaration order.
    pub proof fn lemma_fields()
        ensures
            fields_aligned(Self::fields()),
            Self::fields().len() == 2,
    {
        <T>::lemma_layout();
        <usize>::lemma_layout();
    }
}
impl<T: Deserialize> Linked for Node<T> {
    open spec fn spec_next(&self) -> usize {
        self.next
    }

    fn next(&self) -> (r: usize) {
        self.next
    }

    /// The fields are read in declaration order, each at the end of the one
    /// before it rounded up to its own alignment. The first field that cannot
    /// be read ends the reading; its error is the outcome, wrapped in a
    /// context that names the field.
    open spec fn reads(address: Address, events: Seq<ReadEvent>, outcome: Result<Self, Error>) -> bool {
        match outcome {
            Ok(value) => Self::reads_fields(address, events, value),
            Err(error) => Self::fails_at_field(address, events, error),
        }
    }

    fn read<M: MemoryReader>(reader: &mut M, address: Address) -> (r: Result<Self, Error>) {
        let ghost h0 = reader.history();
        let mut cursor = FieldCursor::new(address);
        proof {
            Self::lemma_fields();
            lemma_no_events(h0);
            assert(Self::end_before(address, 0) == address@);
        }
        let field0 = match cursor.field::<T, M>(reader, "Node", "value") {
            Ok(value) => value,
            Err(error) => {
                proof {
                    lemma_events_chain(h0, h0, reader.history());
                    let cut = events_since(h0, h0).len() as int;
                    assert(Self::field_fails(address, 0, events_since(h0, reader.history()).skip(cut), error)) by {
                        reveal(Node::field_fails);
                    }
                    assert(Self::fails_at_field(address, events_since(h0, reader.history()), error));
                }
                return Err(error);
            },
        };
        let ghost h1 = reader.history();
        proof {
            lemma_prefix_trans(h0, h0, h1);
            assert(cursor.end() == Self::end_before(address, 1));
        }
        let field1 = match cursor.field::<usize, M>(reader, "Node", "next") {
            Ok(value) => value,
            Err(error) => {
                proof {
                    lemma_events_chain(h0, h1, reader.history());
                    let cut = events_since(h0, h1).len() as int;
                    assert(Self::field_fails(address, 1, events_since(h0, reader.history()).skip(cut), error)) by {
                        reveal(Node::field_fails);
                    }
                    assert(Self::fails_at_field(address, events_since(h0, reader.history()), error));
                }
                return Err(error);
            },
        };
        let ghost h2 = reader.history();
        proof {
            lemma_prefix_trans(h0, h1, h2);
            assert(cursor.end() == Self::end_before(address, 2));
        }
        let value = Self { value: field0, next: field1 };
        proof {
            let histories = Seq::new(3, |i: int|
                if i == 0 {
                    h0
                } else if i == 1 {
                    h1
                } else {
                    h2
                });
            assert forall|i: int| 0 <= i < 2 implies (#[trigger] histories[i]).is_prefix_of(histories[i + 1])
                && Self::field_read(address, value, i, events_since(histories[i], histories[i + 1])) by {
                if i == 0 {
                    assert(Self::field_read(address, value, 0, events_since(h0, h1))) by {
                        reveal(Node::field_read);
                    }
                } else if i == 1 {
                    assert(Self::field_read(address, value, 1, events_since(h1, h2))) by {
                        reveal(Node::field_read);
                    }
                }
            }
            Self::lemma_reads_fields(address, value, histories);
        }
        Ok(value)
    }
}

/// A singly linked list in the other process, read from its first node to its
/// last. The values are kept in the order of the list.
pub struct LinkedList<T: Deserialize> {
    pub items: Vec<T>,
}

/// The text of the error for a list that is longer than any list can be.
pub open spec fn endless_list_text() -> Seq<char> {
    "linked list does not end"@
}

/// Where node `index` of a list lies whose first node lies at `first`, given
/// the nodes before it.
pub open spec fn node_address<N: Linked>(first: Address, nodes: Seq<N>, index: int) -> Address {
    if index <= 0 {
        first
    } else {
        Address(nodes[index - 1].spec_next())
    }
}

/// What the reading of node `index` did to arrive at a node: the node was
/// decoded at its address, which was not zero.
pub open spec fn node_read<N: Linked>(first: Address, nodes: Seq<N>) -> spec_fn(int, Seq<ReadEvent>, N) -> bool {
    |index: int, events: Seq<ReadEvent>, node: N|
        {
            &&& node_address(first, nodes, index)@ != 0
            &&& N::reads(node_address(first, nodes, index), events, Ok(node))
        }
}

/// Nodes that were read stay read when a node is added after them.
pub proof fn lemma_node_read_push<N: Linked>(first: Address, nodes: Seq<N>, node: N)
    ensures
        forall|i: int, stretch: Seq<ReadEvent>|
            0 <= i < nodes.len() && #[trigger] node_read(first, nodes)(i, stretch, nodes[i]) ==> node_read(
                first,
                nodes.push(node),
            )(i, stretch, nodes[i]),
        node_address(first, nodes.push(node), nodes.len() as int) == node_address(first, nodes, nodes.len() as int),
{
    let longer = nodes.push(node);
    assert forall|i: int, stretch: Seq<ReadEvent>|
        0 <= i < nodes.len() && #[trigger] node_read(first, nodes)(i, stretch, nodes[i]) implies node_read(
        first,
        longer,
    )(i, stretch, nodes[i]) by {
        assert(node_address(first, longer, i) == node_address(first, nodes, i));
    }
}

/// `events` begins with the reading of `nodes`, each found through the one
/// before it, with the stretches of `events` that `cuts` marks.
pub open spec fn nodes_read<N: Linked>(first: Address, nodes: Seq<N>, cuts: Seq<int>, events: Seq<ReadEvent>) -> bool {
    segments(nodes, cuts, events, node_read(first, nodes))
}

/// The values of nodes, in order.
pub open spec fn node_values<T: Deserialize>(nodes: Seq<Node<T>>) -> Seq<T> {
    Seq::new(nodes.len(), |i: int| nodes[i].value)
}

/// What reading a list does whose first node lies at `first`: the nodes are
/// read one after the other until one says that none follows. A node that
/// cannot be read ends the reading with its error; so does a list of more
/// than [`MAX_LIST_LENGTH`] nodes.
pub open spec fn list_step<T: Deserialize>(
    first: Address,
    events: Seq<ReadEvent>,
    outcome: Result<Seq<T>, Error>,
) -> bool {
    exists|nodes: Seq<Node<T>>, cuts: Seq<int>|
        {
            let next = node_address(first, nodes, nodes.len() as int);
            &&& #[trigger] nodes_read(first, nodes, cuts, events)
            &&& nodes.len() <= MAX_LIST_LENGTH
            &&& match outcome {
                Ok(values) => {
                    &&& cuts.last() == events.len()
                    &&& values == node_values(nodes)
                    &&& next@ == 0
                },
                Err(error) => {
                    &&& next@ != 0
                    &&& if nodes.len() == MAX_LIST_LENGTH {
                        &&& cuts.last() == events.len()
                        &&& error matches Error::InvalidStateError(text)
                        &&& text@ == endless_list_text()
                    } else {
                        Node::<T>::reads(next, events.skip(cuts.last()), Err(error))
                    }
                },
            }
        }
}

/// The values of a result that holds a list.
pub open spec fn list_outcome<T: Deserialize>(outcome: Result<LinkedList<T>, Error>) -> Result<Seq<T>, Error> {
    match outcome {
        Ok(list) => Ok(list.items@),
        Err(error) => Err(error),
    }
}

impl<T: Deserialize> Deserialize for LinkedList<T> {
    const NUM_BYTES: usize = 8;

    const ALIGNMENT: usize = 8;

    open spec fn layout() -> FieldLayout {
        FieldLayout { num_bytes: 8, alignment: 8 }
    }

    proof fn lemma_layout() {
        lemma_small_powers_of_two();
    }

    /// The list's first node lies at `address` itself; zero is the empty list.
    open spec fn decodes(address: Address, events: Seq<ReadEvent>, outcome: Result<Self, Error>) -> bool {
        list_step::<T>(address, events, list_outcome(outcome))
    }

    fn deserialize<M: MemoryReader>(reader: &mut M, address: Address) -> (r: Result<Self, Error>) {
        let ghost start = reader.history();
        let ghost mut nodes: Seq<Node<T>> = Seq::empty();
        let ghost mut cuts: Seq<int> = seq![0int];
        let mut items: Vec<T> = Vec::new();
        let mut next_node_addr = address;
        let mut count: usize = 0;
        proof {
            lemma_no_events(start);
        }
        while next_node_addr.raw() != 0
            invariant
                start == old(reader).history(),
                start.is_prefix_of(reader.history()),
                nodes.len() == count,
                items@ == node_values(nodes),
                nodes_read(address, nodes, cuts, events_since(start, reader.history())),
                cuts.last() == events_since(start, reader.history()).len(),
                next_node_addr == node_address(address, nodes, count as int),
            decreases MAX_LIST_LENGTH - count,
        {
            if count == MAX_LIST_LENGTH {
                return Err(Error::InvalidStateError(String::from_str("linked list does not end")));
            }
            let ghost before = reader.history();
            let node = match Node::<T>::read(reader, next_node_addr) {
                Ok(node) => node,
                Err(error) => {
                    proof {
                        lemma_events_chain(start, before, reader.history());
                        lemma_segments_extend(
                            nodes,
                            cuts,
                            events_since(start, before),
                            node_read(address, nodes),
                            events_since(start, reader.history()),
                            node_read(address, nodes),
                        );
                        assert(nodes_read(address, nodes, cuts, events_since(start, reader.history())));
                    }
                    return Err(error);
                },
            };
            proof {
                lemma_events_chain(start, before, reader.history());
                let longer = nodes.push(node);
                lemma_node_read_push(address, nodes, node);
                lemma_segments_push(
                    nodes,
                    cuts,
                    events_since(start, before),
                    node_read(address, nodes),
                    events_since(start, reader.history()),
                    node_read(address, longer),
                    node,
                );
                nodes = longer;
                cuts = cuts.push(events_since(start, reader.history()).len() as int);
            }
            next_node_addr = Address::new(node.next);
            items.push(node.value);
            count += 1;
            assert(items@ =~= node_values(nodes));
        }
        assert(nodes_read(address, nodes, cuts, events_since(start, reader.history())));
        Ok(LinkedList { items })
    }
}

} // verus!
