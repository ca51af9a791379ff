//! The reroute node: passes each input through to the output at the same
//! place, with the type of whatever is connected to it; one more input is
//! always free to connect a new value.
//!
//! A type is given by the number that stands for it.
use vstd::prelude::*;

verus! {

/// An input pin of a node.
#[derive(Debug, Clone, Copy, PartialEq, Eq)]
pub struct InPinId {
    pub node: usize,
    pub input: usize,
}

/// An output pin of a node.
#[derive(Debug, Clone, Copy, PartialEq, Eq)]
pub struct OutPinId {
    pub node: usize,
    pub output: usize,
}

/// A change of the graph that a node asks the editor to make.
#[derive(Debug, Clone, Copy, PartialEq, Eq)]
pub enum SnarlCommand {
    /// Reconnect the output's wires, dropping those whose types no longer
    /// match.
    ReconnectOutput { id: OutPinId },
    /// Remove the wire, without notifying the nodes.
    DisconnectRaw { from: OutPinId, to: InPinId },
    /// Remove every wire from the output.
    DropOutputs { from: OutPinId },
    /// Move the wires of one input to another.
    InputMovedRaw { from: InPinId, to: InPinId },
    /// Move the wires of one output to another.
    OutputMovedRaw { from: OutPinId, to: OutPinId },
    /// Forget the value set inline on the input.
    DeletePinValue { pin: InPinId },
}

#[derive(Debug, Clone, PartialEq, Eq)]
pub struct RerouteNode {
    inputs: Vec<u64>,
}

/// The commands that move the wires of pins `k + 1 .. end` of `node` one
/// place down.
pub open spec fn moves(node: usize, k: int, end: int) -> Seq<SnarlCommand>
    decreases end - k,
{
    if k >= end {
        Seq::empty()
    } else {
        seq![
            SnarlCommand::InputMovedRaw {
                from: InPinId { node, input: (k + 1) as usize },
                to: InPinId { node, input: k as usize },
            },
            SnarlCommand::OutputMovedRaw {
                from: OutPinId { node, output: (k + 1) as usize },
                to: OutPinId { node, output: k as usize },
            },
        ] + moves(node, k + 1, end)
    }
}

/// The commands that disconnecting `from` from `to` gives, on a node of
/// `len` inputs.
pub open spec fn disconnect_commands(from: OutPinId, to: InPinId, len: int) -> Seq<SnarlCommand> {
    seq![
        SnarlCommand::DisconnectRaw { from, to },
        SnarlCommand::DropOutputs { from: OutPinId { node: to.node, output: to.input } },
    ] + moves(to.node, to.input as int, len - 1) + seq![
        SnarlCommand::DeletePinValue { pin: InPinId { node: to.node, input: (len - 1) as usize } },
    ]
}

proof fn lemma_moves_split(node: usize, i: int, k: int, end: int)
    requires
        i <= k < end,
    ensures
        moves(node, i, k + 1) == moves(node, i, k) + seq![
            SnarlCommand::InputMovedRaw {
                from: InPinId { node, input: (k + 1) as usize },
                to: InPinId { node, input: k as usize },
            },
            SnarlCommand::OutputMovedRaw {
                from: OutPinId { node, output: (k + 1) as usize },
                to: OutPinId { node, output: k as usize },
            },
        ],
    decreases k - i,
{
    if i < k {
        lemma_moves_split(node, i + 1, k, end);
        assert(moves(node, i, k + 1) =~= moves(node, i, k) + seq![
            SnarlCommand::InputMovedRaw {
                from: InPinId { node, input: (k + 1) as usize },
                to: InPinId { node, input: k as usize },
            },
            SnarlCommand::OutputMovedRaw {
                from: OutPinId { node, output: (k + 1) as usize },
                to: OutPinId { node, output: k as usize },
            },
        ]);
    } else {
        assert(moves(node, i, i) =~= Seq::<SnarlCommand>::empty());
        assert(moves(node, i + 1, i + 1) =~= Seq::<SnarlCommand>::empty());
        assert(moves(node, i, i + 1) =~= seq![
            SnarlCommand::InputMovedRaw {
                from: InPinId { node, input: (i + 1) as usize },
                to: InPinId { node, input: i as usize },
            },
            SnarlCommand::OutputMovedRaw {
                from: OutPinId { node, output: (i + 1) as usize },
                to: OutPinId { node, output: i as usize },
            },
        ]);
    }
}

impl RerouteNode {
    /// The types of the connected inputs, in order.
    pub closed spec fn types(&self) -> Seq<u64> {
        self.inputs@
    }

    /// A node with no connected inputs.
    pub fn new() -> (r: Self)
        ensures
            r.types() == Seq::<u64>::empty(),
    {
        RerouteNode { inputs: Vec::new() }
    }

    /// The inputs: one per connected value, and one free.
    pub fn inputs_count(&self) -> (r: usize)
        requires
            self.types().len() < usize::MAX,
        ensures
            r == self.types().len() + 1,
    {
        self.inputs.len() + 1
    }

    /// The outputs: one per connected value.
    pub fn outputs_count(&self) -> (r: usize)
        ensures
            r == self.types().len(),
    {
        self.inputs.len()
    }

    /// The type of an input; the free input takes the type of its source.
    pub fn input_type(&self, input: usize) -> (r: Option<u64>)
        requires
            input <= self.types().len(),
        ensures
            input == self.types().len() ==> r is None,
            input < self.types().len() ==> r == Some(self.types()[input as int]),
    {
        if input == self.inputs.len() {
            None
        } else {
            Some(self.inputs[input])
        }
    }

    /// The type of an output.
    pub fn output_type(&self, output: usize) -> (r: u64)
        requires
            output < self.types().len(),
        ensures
            r == self.types()[output as int],
    {
        self.inputs[output]
    }

    /// Takes the type of a value connected to `to`: the free input becomes
    /// a new input of that type; an input whose type changes has its output
    /// reconnected. A source of no item type is refused (`false`); else the
    /// connection is to be made (`true`).
    pub fn try_connect(&mut self, to: InPinId, incoming: Option<u64>, commands: &mut Vec<SnarlCommand>) -> (r: bool)
        requires
            to.input <= old(self).types().len(),
        ensures
            r == incoming is Some,
            match incoming {
                None => final(self).types() == old(self).types() && final(commands)@ == old(commands)@,
                Some(t) => if to.input == old(self).types().len() {
                    final(self).types() == old(self).types().push(t) && final(commands)@ == old(commands)@
                } else if old(self).types()[to.input as int] != t {
                    &&& final(self).types() == old(self).types().update(to.input as int, t)
                    &&& final(commands)@ == old(commands)@.push(
                        SnarlCommand::ReconnectOutput { id: OutPinId { node: to.node, output: to.input } },
                    )
                } else {
                    final(self).types() == old(self).types() && final(commands)@ == old(commands)@
                },
            },
    {
        let t = match incoming {
            Some(t) => t,
            None => {
                return false;
            },
        };
        let i = to.input;
        if i == self.inputs.len() {
            self.inputs.push(t);
        } else if self.inputs[i] != t {
            self.inputs.set(i, t);
            commands.push(SnarlCommand::ReconnectOutput { id: OutPinId { node: to.node, output: i } });
        }
        true
    }

    /// Removes the input `to` (the last one, when `to` is the free input):
    /// its wire and its output's wires are dropped, the later inputs and
    /// outputs move one place down, and the inline value of the last input
    /// is forgotten.
    pub fn try_disconnect(&mut self, from: OutPinId, to: InPinId, commands: &mut Vec<SnarlCommand>)
        requires
            old(self).types().len() > 0,
        ensures
            to.input < old(self).types().len() ==> final(self).types() == old(self).types().remove(to.input as int),
            to.input >= old(self).types().len() ==> final(self).types() == old(self).types().drop_last(),
            final(commands)@ == old(commands)@ + disconnect_commands(from, to, old(self).types().len() as int),
    {
        let ghost c0 = commands@;
        let ghost t0 = self.inputs@;
        let n = self.inputs.len();
        commands.push(SnarlCommand::DisconnectRaw { from, to });
        commands.push(SnarlCommand::DropOutputs { from: OutPinId { node: to.node, output: to.input } });
        let mut i = to.input;
        let ghost start = to.input as int;
        proof {
            if start < n - 1 {
            } else {
                assert(moves(to.node, start, n - 1) =~= Seq::<SnarlCommand>::empty());
            }
        }
        if i < n - 1 {
            assert(moves(to.node, start, start) =~= Seq::<SnarlCommand>::empty());
            while i < n - 1
                invariant
                    n == t0.len(),
                    n > 0,
                    start == to.input as int,
                    start <= i <= n - 1,
                    self.inputs@.len() == n,
                    self.inputs@ == t0.subrange(0, start) + t0.subrange(start + 1, i + 1) + seq![t0[start]] + t0.subrange(i + 1, n as int),
                    commands@ == c0 + seq![
                        SnarlCommand::DisconnectRaw { from, to },
                        SnarlCommand::DropOutputs { from: OutPinId { node: to.node, output: to.input } },
                    ] + moves(to.node, start, i as int),
                decreases n - 1 - i,
            {
                let ghost before = self.inputs@;
                proof {
                    assert(0 <= start <= i);
                    assert(i < n);
                    assert(n == t0.len());
                    let A = t0.subrange(0, start);
                    let B = t0.subrange(start + 1, i + 1);
                    let left = A + B;
                    let C = t0.subrange(i + 1, n as int);
                    let x = t0[start];
                    assert(before == left + seq![x] + C);
                    assert(left.len() == i);
                    assert(before[i as int] == t0[start]) by {
                        assert((left + seq![x])[i as int] == x);
                    }
                    assert(before[i + 1] == t0[i + 1]) by {
                        assert(C[0] == t0[i + 1]);
                    }
                    assert forall|j: int| 0 <= j < i implies #[trigger] before[j] == (if j < start { t0[j] } else { t0[j + 1] }) by {
                        assert(before[j] == (left + seq![x])[j]);
                        assert((left + seq![x])[j] == left[j]);
                        if j < start {
                            assert(left[j] == A[j]);
                        } else {
                            assert(A.len() == start);
                            assert(B.len() == i - start);
                            assert(left[j] == B[j - start]);
                            assert(B[j - start] == t0[j + 1]);
                        }
                    }
                    assert forall|j: int| i + 1 < j < n implies #[trigger] before[j] == t0[j] by {
                        assert(before[j] == C[j - i - 1]);
                    }
                }
                let a = self.inputs[i];
                let b = self.inputs[i + 1];
                self.inputs.set(i, b);
                self.inputs.set(i + 1, a);
                commands.push(SnarlCommand::InputMovedRaw {
                    from: InPinId { node: to.node, input: i + 1 },
                    to: InPinId { node: to.node, input: i },
                });
                commands.push(SnarlCommand::OutputMovedRaw {
                    from: OutPinId { node: to.node, output: i + 1 },
                    to: OutPinId { node: to.node, output: i },
                });
                proof {
                    lemma_moves_split(to.node, start, i as int, n - 1);
                    let A = t0.subrange(0, start);
                    let B2 = t0.subrange(start + 1, i + 2);
                    let C2 = t0.subrange(i + 2, n as int);
                    let target = A + B2 + seq![t0[start]] + C2;
                    assert forall|j: int| 0 <= j < n implies #[trigger] self.inputs@[j] == target[j] by {
                        if j < start {
                            assert(target[j] == A[j]);
                        } else if j <= i {
                            assert(target[j] == B2[j - start]);
                        } else if j == i + 1 {
                            assert(target[j] == t0[start]);
                        } else {
                            assert(target[j] == C2[j - i - 2]);
                        }
                    }
                    assert(self.inputs@ =~= t0.subrange(0, start) + t0.subrange(start + 1, i + 2) + seq![t0[start]] + t0.subrange(i + 2, n as int));
                }
                i = i + 1;
            }
            proof {
                assert(self.inputs@.drop_last() =~= t0.remove(start));
            }
        }
        self.inputs.pop();
        commands.push(SnarlCommand::DeletePinValue { pin: InPinId { node: to.node, input: self.inputs.len() } });
        proof {
            if start >= n - 1 {
                if start < n {
                    assert(t0.drop_last() =~= t0.remove(start));
                }
            }
            assert(commands@ =~= c0 + disconnect_commands(from, to, n as int));
        }
    }
}

/// Connecting a value to the free input and then disconnecting it leaves
/// the node's inputs as they were.
pub proof fn law_connect_then_disconnect(types: Seq<u64>, t: u64)
    ensures
        types.push(t).remove(types.len() as int) == types,
{
    assert(types.push(t).remove(types.len() as int) =~= types);
}

/// Makes reroute nodes.
pub struct RerouteFactory;

impl RerouteFactory {
    pub fn id(&self) -> (r: &'static str)
        ensures
            r@ == seq!['r', 'e', 'r', 'o', 'u', 't', 'e'],
    {
        proof {
            reveal_strlit("reroute");
        }
        "reroute"
    }

    pub fn categories(&self) -> (r: Vec<&'static str>)
        ensures
            r@.len() == 1,
            r@[0]@ == seq!['u', 't', 'i', 'l', 'i', 't', 'y'],
    {
        proof {
            reveal_strlit("utility");
        }
        vec!["utility"]
    }

    pub fn create(&self) -> (r: RerouteNode)
        ensures
            r.types() == Seq::<u64>::empty(),
    {
        RerouteNode::new()
    }
}

} // verus!
