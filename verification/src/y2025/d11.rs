//! Day 11: a network of devices, and the ways that lead through it.
use vstd::prelude::*;
use crate::solution::Solution;
use crate::util::text::{copy_range, from_chars, lines, split_lines, split_words, to_chars, views, words};
use crate::y2025::{shown, PuzzleError};

verus! {

/// The place of a device in the list of devices.
#[derive(Debug, Clone, Copy, PartialEq, Eq, Structural)]
pub struct NodeIdx(pub u32);

/// A device: its name, its place, and the devices that its outputs lead
/// to.
pub struct Node {
    pub name: String,
    pub idx: NodeIdx,
    pub neighbors: Vec<NodeIdx>,
}

impl Node {
    /// A device without outputs.
    pub fn new(name: String, idx: NodeIdx) -> (node: Node)
        ensures
            node.name == name,
            node.idx == idx,
            node.neighbors@ == Seq::<NodeIdx>::empty(),
    {
        Node { name, idx, neighbors: Vec::new() }
    }
}

/// The places of devices by their names.
pub type Names = foldhash::HashMap<String, u32>;

/// What a map from names to places holds.
pub uninterp spec fn names_of(names: Names) -> Map<Seq<char>, u32>;

/// No names at all.
pub open spec fn no_names() -> Map<Seq<char>, u32> {
    Map::empty()
}

/// A map without names. This is `Default::default` of
/// `foldhash::HashMap`, a `std::collections::HashMap` with the hasher of
/// `foldhash`: the new map holds nothing.
#[verifier::external_body]
fn names_new() -> (made: Names)
    ensures
        names_of(made) == no_names(),
{
    foldhash::HashMap::default()
}

/// The place that `names` holds for `name`. This is `HashMap::get`: the
/// value stored under the key that equals `name`, if there is one.
#[verifier::external_body]
fn names_get(names: &Names, name: &str) -> (place: Option<u32>)
    ensures
        place == (if names_of(*names).contains_key(name@) {
            Some(names_of(*names)[name@])
        } else {
            None
        }),
{
    names.get(name).copied()
}

/// Stores `place` under `name`. This is `HashMap::insert`: afterwards the
/// map holds `place` for `name`, and for every other name what it held.
#[verifier::external_body]
fn names_insert(names: &mut Names, name: String, place: u32)
    ensures
        names_of(*final(names)) == names_of(*old(names)).insert(name@, place),
{
    names.insert(name, place);
}

/// The devices of a network as numbers: for each device, in the order of
/// their places, the places that its outputs lead to.
pub type Wiring = Seq<Seq<nat>>;

/// A network of devices.
pub struct Graph {
    names: Names,
    nodes: Vec<Node>,
}

/// A network as the text describes it: the places of the names, and the
/// names and outputs of the devices in the order of their places.
pub struct GraphModel {
    pub names: Map<Seq<char>, u32>,
    pub labels: Seq<Seq<char>>,
    pub wiring: Wiring,
}

impl GraphModel {
    /// The network without devices.
    pub open spec fn empty() -> GraphModel {
        GraphModel { names: Map::empty(), labels: Seq::empty(), wiring: Seq::empty() }
    }

    /// Every name has the place of the device of that name, and outputs
    /// lead to devices of the network.
    pub open spec fn wf(self) -> bool {
        &&& self.labels.len() == self.wiring.len()
        &&& self.labels.len() <= u32::MAX
        &&& forall|name: Seq<char>| #[trigger]
            self.names.contains_key(name) ==> self.names[name] < self.labels.len()
                && self.labels[self.names[name] as int] == name
        &&& forall|i: int| 0 <= i < self.labels.len() ==> self.names.contains_key(#[trigger] self.labels[i])
        &&& forall|i: int, k: int|
            0 <= i < self.wiring.len() && 0 <= k < self.wiring[i].len() ==> (#[trigger] self.wiring[i][k])
                < self.wiring.len()
    }

    /// The network with a device of the name `name`, and the place of that
    /// device: a device that is there stays, else a new one comes last.
    pub open spec fn insert_node(self, name: Seq<char>) -> (GraphModel, u32) {
        if self.names.contains_key(name) {
            (self, self.names[name])
        } else {
            (
                GraphModel {
                    names: self.names.insert(name, self.labels.len() as u32),
                    labels: self.labels.push(name),
                    wiring: self.wiring.push(Seq::empty()),
                },
                self.labels.len() as u32,
            )
        }
    }

    /// The network with one more output of the device `from`, to the device
    /// `to`.
    pub open spec fn insert_edge(self, from: u32, to: u32) -> GraphModel {
        GraphModel { wiring: self.wiring.update(from as int, self.wiring[from as int].push(to as nat)), ..self }
    }

    /// The network with the first `upto` of `targets` as outputs of the
    /// device `from`, in order.
    pub open spec fn add_targets(self, from: u32, targets: Seq<Seq<char>>, upto: int) -> GraphModel
        decreases upto,
    {
        if upto <= 0 {
            self
        } else {
            let before = self.add_targets(from, targets, upto - 1);
            let (with_node, to) = before.insert_node(targets[upto - 1]);
            with_node.insert_edge(from, to)
        }
    }

    /// Whether the network has a place for a device of the name `name`:
    /// the device is there already, or not all places are taken.
    pub open spec fn has_room(self, name: Seq<char>) -> bool {
        self.names.contains_key(name) || self.labels.len() < u32::MAX
    }

    /// Whether there is a place for each of the first `upto` of `targets`
    /// as they are added, in order, as outputs of the device `from`.
    pub open spec fn targets_fit(self, from: u32, targets: Seq<Seq<char>>, upto: int) -> bool
        decreases upto,
    {
        upto <= 0 || (self.targets_fit(from, targets, upto - 1) && self.add_targets(
            from,
            targets,
            upto - 1,
        ).has_room(targets[upto - 1]))
    }

    /// The network with what `line` describes: a device, named before the
    /// first colon with a blank after it, and after them the names of the
    /// devices that its outputs lead to. A line without such a colon is
    /// invalid; a device for which no place is left is one too many.
    pub open spec fn add_line(self, line: Seq<char>) -> Result<GraphModel, PuzzleError> {
        let at = index_of_colon(line);
        if at >= line.len() {
            Err(PuzzleError::InvalidInput)
        } else if !self.has_room(line.take(at)) {
            Err(PuzzleError::Overflow)
        } else {
            let (with_node, from) = self.insert_node(line.take(at));
            let targets = words(line.skip(at + 2));
            if with_node.targets_fit(from, targets, targets.len() as int) {
                Ok(with_node.add_targets(from, targets, targets.len() as int))
            } else {
                Err(PuzzleError::Overflow)
            }
        }
    }

    /// The network with what the first `upto` of `rows` describe, or what
    /// is wrong with the first row that cannot be added.
    pub open spec fn add_lines(self, rows: Seq<Seq<char>>, upto: int) -> Result<GraphModel, PuzzleError>
        decreases upto,
    {
        if upto <= 0 {
            Ok(self)
        } else {
            match self.add_lines(rows, upto - 1) {
                Err(error) => Err(error),
                Ok(before) => before.add_line(rows[upto - 1]),
            }
        }
    }
}

/// The index of the first colon of `s` that a blank follows, or `s.len()`
/// where there is none.
pub open spec fn index_of_colon(s: Seq<char>) -> int
    decreases s.len(),
{
    if s.len() < 2 {
        s.len() as int
    } else if s[0] == ':' && s[1] == ' ' {
        0
    } else {
        1 + index_of_colon(s.skip(1))
    }
}

proof fn lemma_index_of_colon(s: Seq<char>, at: int)
    requires
        0 <= at <= s.len(),
        forall|j: int| 0 <= j < at && j + 1 < s.len() ==> !(#[trigger] s[j] == ':' && s[j + 1] == ' '),
        at < s.len() ==> at + 1 < s.len() && s[at] == ':' && s[at + 1] == ' ',
        at == s.len() || at + 1 < s.len(),
    ensures
        index_of_colon(s) == at,
    decreases s.len(),
{
    if s.len() < 2 {
    } else if at == 0 {
    } else {
        let rest = s.skip(1);
        assert(!(s[0] == ':' && s[1] == ' '));
        assert forall|j: int| 0 <= j < at - 1 && j + 1 < rest.len() implies !(#[trigger] rest[j] == ':'
            && rest[j + 1] == ' ') by {
            assert(!(s[j + 1] == ':' && s[j + 2] == ' '));
            assert(rest[j] == s[j + 1] && rest[j + 1] == s[j + 2]);
        }
        if at < s.len() {
            assert(rest[at - 1] == s[at] && rest[at] == s[at + 1]);
        }
        lemma_index_of_colon(rest, at - 1);
    }
}

/// Finds the first colon of `line` that a blank follows.
fn find_colon(line: &Vec<char>) -> (at: usize)
    ensures
        at == index_of_colon(line@),
        at <= line@.len(),
        at < line@.len() ==> at + 2 <= line@.len(),
{
    let mut at: usize = 0;
    while at < line.len() && line.len() - at > 1 && !(line[at] == ':' && line[at + 1] == ' ')
        invariant
            at <= line@.len(),
            forall|j: int|
                0 <= j < at && j + 1 < line@.len() ==> !(#[trigger] line@[j] == ':' && line@[j + 1] == ' '),
        decreases line.len() - at,
    {
        at += 1;
    }
    if at >= line.len() || line.len() - at <= 1 {
        proof {
            lemma_index_of_colon(line@, line@.len() as int);
        }
        line.len()
    } else {
        proof {
            lemma_index_of_colon(line@, at as int);
        }
        at
    }
}

impl Graph {
    /// The network as the text describes it.
    pub closed spec fn model(&self) -> GraphModel {
        GraphModel {
            names: names_of(self.names),
            labels: self.nodes@.map_values(|node: Node| node.name@),
            wiring: self.nodes@.map_values(
                |node: Node| node.neighbors@.map_values(|neighbor: NodeIdx| neighbor.0 as nat),
            ),
        }
    }

    /// The model is well formed, and every device knows its place.
    pub closed spec fn wf(&self) -> bool {
        &&& self.model().wf()
        &&& forall|i: int| 0 <= i < self.nodes@.len() ==> (#[trigger] self.nodes@[i]).idx.0 == i
    }

    /// The network without devices.
    pub fn new() -> (graph: Graph)
        ensures
            graph.wf(),
            graph.model() == GraphModel::empty(),
    {
        let graph = Graph { names: names_new(), nodes: Vec::new() };
        assert(graph.model().labels =~= Seq::<Seq<char>>::empty());
        assert(graph.model().wiring =~= Seq::<Seq<nat>>::empty());
        graph
    }

    /// How many devices the network has.
    pub fn len(&self) -> (n: usize)
        ensures
            n == self.model().wiring.len(),
    {
        self.nodes.len()
    }

    /// Adds a device of the name `name`, unless there is one, and gives its
    /// place. Fails where the network has no place left.
    pub fn insert_node(&mut self, name: &str) -> (r: Option<NodeIdx>)
        requires
            old(self).wf(),
        ensures
            final(self).wf(),
            match r {
                Some(idx) => old(self).model().has_room(name@) && (final(self).model(), idx.0) == old(
                    self,
                ).model().insert_node(name@),
                None => !old(self).model().names.contains_key(name@) && old(self).model().labels.len()
                    == u32::MAX && final(self).model() == old(self).model(),
            },
    {
        if let Some(idx) = names_get(&self.names, name) {
            return Some(NodeIdx(idx));
        }
        if self.nodes.len() >= u32::MAX as usize {
            return None;
        }
        let idx = self.next_node_idx();
        let ghost before = self.model();
        let node = Node::new(name.to_owned(), idx);
        self.nodes.push(node);
        names_insert(&mut self.names, name.to_owned(), idx.0);
        proof {
            let after = self.model();
            assert(after.labels =~= before.labels.push(name@));
            assert(after.wiring[before.wiring.len() as int] =~= Seq::<nat>::empty());
            assert(after.wiring =~= before.wiring.push(Seq::<nat>::empty()));
            assert forall|other: Seq<char>| #[trigger] after.names.contains_key(other) implies after.names[other]
                < after.labels.len() && after.labels[after.names[other] as int] == other by {
                if other != name@ {
                    assert(before.names.contains_key(other));
                }
            }
            assert forall|i: int| 0 <= i < after.labels.len() implies after.names.contains_key(
                #[trigger] after.labels[i],
            ) by {
                if i < before.labels.len() {
                    assert(before.names.contains_key(before.labels[i]));
                }
            }
            assert forall|i: int, k: int|
                0 <= i < after.wiring.len() && 0 <= k < after.wiring[i].len() implies (
            #[trigger] after.wiring[i][k]) < after.wiring.len() by {
                if i < before.wiring.len() {
                    assert(before.wiring[i][k] < before.wiring.len());
                }
            }
        }
        Some(idx)
    }

    /// Adds an output of the device `from`, to the device `to`.
    pub fn insert_edge(&mut self, from: NodeIdx, to: NodeIdx)
        requires
            old(self).wf(),
            from.0 < old(self).model().wiring.len(),
            to.0 < old(self).model().wiring.len(),
        ensures
            final(self).wf(),
            final(self).model() == old(self).model().insert_edge(from.0, to.0),
    {
        let ghost before = self.model();
        let ghost nodes = self.nodes@;
        let at = from.0 as usize;
        let mut moved: Vec<Node> = Vec::new();
        std::mem::swap(&mut self.nodes, &mut moved);
        let mut neighbors: Vec<NodeIdx> = Vec::new();
        std::mem::swap(&mut moved[at].neighbors, &mut neighbors);
        neighbors.push(to);
        std::mem::swap(&mut moved[at].neighbors, &mut neighbors);
        self.nodes = moved;
        proof {
            let after = self.model();
            assert(self.nodes@.len() == nodes.len());
            assert forall|i: int| 0 <= i < nodes.len() && i != at implies self.nodes@[i] == nodes[i] by {}
            assert(self.nodes@[at as int].name == nodes[at as int].name);
            assert(self.nodes@[at as int].idx == nodes[at as int].idx);
            assert(self.nodes@[at as int].neighbors@ == nodes[at as int].neighbors@.push(to));
            assert(after.labels =~= before.labels);
            assert(after.wiring[at as int] =~= before.wiring[at as int].push(to.0 as nat));
            assert(after.wiring =~= before.wiring.update(at as int, before.wiring[at as int].push(to.0 as nat)));
            assert(after.names == before.names);
            assert forall|name: Seq<char>| #[trigger] after.names.contains_key(name) implies after.names[name]
                < after.labels.len() && after.labels[after.names[name] as int] == name by {
                assert(before.names.contains_key(name));
            }
            assert forall|i: int| 0 <= i < after.labels.len() implies after.names.contains_key(
                #[trigger] after.labels[i],
            ) by {
                assert(before.names.contains_key(before.labels[i]));
            }
            assert forall|i: int| 0 <= i < self.nodes@.len() implies (#[trigger] self.nodes@[i]).idx.0 == i by {
                assert(nodes[i].idx.0 == i);
            }
            assert forall|i: int, k: int|
                0 <= i < after.wiring.len() && 0 <= k < after.wiring[i].len() implies (
            #[trigger] after.wiring[i][k]) < after.wiring.len() by {
                if i != at {
                    assert(before.wiring[i][k] < before.wiring.len());
                } else if k < before.wiring[i].len() {
                    assert(before.wiring[i][k] < before.wiring.len());
                }
            }
        }
    }

    fn next_node_idx(&self) -> (idx: NodeIdx)
        requires
            self.nodes@.len() <= u32::MAX,
        ensures
            idx.0 == self.nodes@.len(),
    {
        NodeIdx(self.nodes.len() as u32)
    }

    /// The device at the place `idx`.
    pub fn node(&self, idx: NodeIdx) -> (node: &Node)
        requires
            idx.0 < self.model().wiring.len(),
        ensures
            node.name@ == self.model().labels[idx.0 as int],
            node.neighbors@.map_values(|neighbor: NodeIdx| neighbor.0 as nat) == self.model().wiring[idx.0 as int],
    {
        &self.nodes[idx.0 as usize]
    }
}

/// The network that `text` describes, line by line, where every line names
/// a device before a colon and a blank.
pub open spec fn spec_parse(text: Seq<char>) -> Result<GraphModel, PuzzleError> {
    GraphModel::empty().add_lines(lines(text), lines(text).len() as int)
}

proof fn lemma_add_lines_fails(model: GraphModel, rows: Seq<Seq<char>>, n: int, upto: int)
    requires
        0 <= n <= upto,
        model.add_lines(rows, n) is Err,
    ensures
        model.add_lines(rows, upto) == model.add_lines(rows, n),
    decreases upto - n,
{
    if n < upto {
        lemma_add_lines_fails(model, rows, n, upto - 1);
    }
}

/// Targets that do not all find a place do not with more targets either.
proof fn lemma_targets_unfit(model: GraphModel, from: u32, targets: Seq<Seq<char>>, n: int, upto: int)
    requires
        n <= upto,
        !model.targets_fit(from, targets, n),
    ensures
        !model.targets_fit(from, targets, upto),
    decreases upto - n,
{
    if n < upto {
        lemma_targets_unfit(model, from, targets, n, upto - 1);
    }
}

/// Reads the network that `input` describes.
pub fn parse(input: &str) -> (r: Result<Graph, PuzzleError>)
    ensures
        match r {
            Ok(graph) => graph.wf() && spec_parse(input@) == Ok::<GraphModel, PuzzleError>(graph.model()),
            Err(error) => spec_parse(input@) == Err::<GraphModel, PuzzleError>(error),
        },
{
    let text = to_chars(input);
    let rows = split_lines(&text);
    let ghost all = lines(input@);
    let mut graph = Graph::new();
    let mut y: usize = 0;
    while y < rows.len()
        invariant
            y <= rows@.len(),
            views(rows@) == all,
            all == lines(input@),
            graph.wf(),
            GraphModel::empty().add_lines(all, y as int) == Ok::<GraphModel, PuzzleError>(graph.model()),
        decreases rows.len() - y,
    {
        let line = &rows[y];
        assert(views(rows@)[y as int] == line@);
        let at = find_colon(line);
        if at >= line.len() {
            proof {
                assert(GraphModel::empty().add_lines(all, y + 1) is Err);
                lemma_add_lines_fails(GraphModel::empty(), all, y + 1, all.len() as int);
            }
            return Err(PuzzleError::InvalidInput);
        }
        let ghost before = graph.model();
        let name = from_chars(&copy_range(line, 0, at));
        assert(name@ =~= line@.take(at as int));
        let from = match graph.insert_node(name.as_str()) {
            Some(from) => from,
            None => {
                proof {
                    assert(!before.has_room(name@));
                    assert(GraphModel::empty().add_lines(all, y + 1) is Err);
                    lemma_add_lines_fails(GraphModel::empty(), all, y + 1, all.len() as int);
                }
                return Err(PuzzleError::Overflow);
            },
        };
        let rest = copy_range(line, at + 2, line.len());
        assert(rest@ =~= line@.skip(at + 2));
        let targets = split_words(&rest);
        let ghost started = graph.model();
        let ghost names = words(line@.skip(at + 2));
        let mut k: usize = 0;
        while k < targets.len()
            invariant
                k <= targets@.len(),
                views(targets@) == names,
                graph.wf(),
                started.wf(),
                from.0 < started.wiring.len(),
                from.0 < graph.model().wiring.len(),
                graph.model() == started.add_targets(from.0, names, k as int),
                started.targets_fit(from.0, names, k as int),
                all == lines(input@),
                y < all.len(),
                GraphModel::empty().add_lines(all, y as int) == Ok::<GraphModel, PuzzleError>(before),
                index_of_colon(all[y as int]) == at,
                at < all[y as int].len(),
                before.has_room(all[y as int].take(at as int)),
                (started, from.0) == before.insert_node(all[y as int].take(at as int)),
                names == words(all[y as int].skip(at + 2)),
            decreases targets.len() - k,
        {
            assert(views(targets@)[k as int] == targets@[k as int]@);
            let target = from_chars(&targets[k]);
            let to = match graph.insert_node(target.as_str()) {
                Some(to) => to,
                None => {
                    proof {
                        assert(!started.targets_fit(from.0, names, k + 1));
                        lemma_targets_unfit(started, from.0, names, k + 1, names.len() as int);
                        assert(GraphModel::empty().add_lines(all, y + 1) is Err);
                        lemma_add_lines_fails(GraphModel::empty(), all, y + 1, all.len() as int);
                    }
                    return Err(PuzzleError::Overflow);
                },
            };
            graph.insert_edge(from, to);
            k += 1;
        }
        y += 1;
    }
    Ok(graph)
}

/// The place of the device `name`, or `missing` where the network has no
/// such device.
pub fn get_node_idx(network: &Graph, name: &str, missing: PuzzleError) -> (r: Result<NodeIdx, PuzzleError>)
    requires
        network.wf(),
    ensures
        match r {
            Ok(idx) => network.model().names.contains_key(name@) && network.model().names[name@] == idx.0
                && idx.0 < network.model().wiring.len(),
            Err(error) => error == missing && !network.model().names.contains_key(name@),
        },
{
    match names_get(&network.names, name) {
        Some(idx) => Ok(NodeIdx(idx)),
        None => Err(missing),
    }
}

/// How many ways lead from the device `from` to the device `to` with at
/// most `fuel` steps on any of them, where no way takes more steps. Outputs
/// that lead to the same device count once each.
pub open spec fn paths(wiring: Wiring, from: nat, to: nat, fuel: nat) -> Option<nat>
    decreases fuel, 0nat,
{
    if from == to {
        Some(1)
    } else if fuel == 0 || from >= wiring.len() {
        None
    } else {
        sum_paths(wiring, wiring[from as int], wiring[from as int].len() as int, to, (fuel - 1) as nat)
    }
}

/// The sum of [`paths`] from the first `upto` of `targets`.
pub open spec fn sum_paths(wiring: Wiring, targets: Seq<nat>, upto: int, to: nat, fuel: nat) -> Option<nat>
    decreases fuel, (if upto < 0 {
        1
    } else {
        upto + 1
    }),
{
    if upto <= 0 {
        Some(0)
    } else {
        match (sum_paths(wiring, targets, upto - 1, to, fuel), paths(wiring, targets[upto - 1], to, fuel)) {
            (Some(sum), Some(count)) => Some(sum + count),
            _ => None,
        }
    }
}

/// Whether `count` ways lead from `from` to `to`: that is [`paths`] where
/// enough steps are allowed.
pub open spec fn counted(wiring: Wiring, from: nat, to: nat, count: nat) -> bool {
    exists|fuel: nat| #[trigger] paths(wiring, from, to, fuel) == Some(count)
}

/// Whether the ways from `from` to `to` have no count, however many steps
/// are allowed.
pub open spec fn endless(wiring: Wiring, from: nat, to: nat) -> bool {
    forall|fuel: nat| (#[trigger] paths(wiring, from, to, fuel)) is None
}

/// More steps allowed do not change a count that was had with fewer.
pub proof fn lemma_paths_fuel(wiring: Wiring, from: nat, to: nat, fuel: nat, more: nat)
    requires
        fuel <= more,
        paths(wiring, from, to, fuel) is Some,
    ensures
        paths(wiring, from, to, more) == paths(wiring, from, to, fuel),
    decreases fuel, 0nat,
{
    if from != to {
        lemma_sum_paths_fuel(
            wiring,
            wiring[from as int],
            wiring[from as int].len() as int,
            to,
            (fuel - 1) as nat,
            (more - 1) as nat,
        );
    }
}

/// See [`lemma_paths_fuel`].
pub proof fn lemma_sum_paths_fuel(wiring: Wiring, targets: Seq<nat>, upto: int, to: nat, fuel: nat, more: nat)
    requires
        fuel <= more,
        sum_paths(wiring, targets, upto, to, fuel) is Some,
    ensures
        sum_paths(wiring, targets, upto, to, more) == sum_paths(wiring, targets, upto, to, fuel),
    decreases fuel, (if upto < 0 {
        1
    } else {
        upto + 1
    }),
{
    if upto > 0 {
        lemma_sum_paths_fuel(wiring, targets, upto - 1, to, fuel, more);
        lemma_paths_fuel(wiring, targets[upto - 1], to, fuel, more);
    }
}

/// A sum over targets, one of which has no count, has none.
pub proof fn lemma_sum_paths_none(wiring: Wiring, targets: Seq<nat>, upto: int, to: nat, fuel: nat, k: int)
    requires
        0 <= k < upto,
        paths(wiring, targets[k], to, fuel) is None,
    ensures
        sum_paths(wiring, targets, upto, to, fuel) is None,
    decreases upto,
{
    if k < upto - 1 {
        lemma_sum_paths_none(wiring, targets, upto - 1, to, fuel, k);
    }
}

/// Whether `trap` is a set of devices, none of them `to`, each with an
/// output that leads back into the set.
pub open spec fn is_trap(wiring: Wiring, trap: Set<nat>, to: nat) -> bool {
    &&& !trap.contains(to)
    &&& forall|v: nat| #[trigger]
        trap.contains(v) ==> v < wiring.len() && exists|k: int|
            0 <= k < wiring[v as int].len() && trap.contains(#[trigger] wiring[v as int][k])
}

/// From a device in a trap the ways to `to` never end: there is no count,
/// however many steps are allowed.
pub proof fn lemma_trap(wiring: Wiring, trap: Set<nat>, to: nat, v: nat, fuel: nat)
    requires
        is_trap(wiring, trap, to),
        trap.contains(v),
    ensures
        paths(wiring, v, to, fuel) is None,
    decreases fuel,
{
    if fuel > 0 {
        let k = choose|k: int| 0 <= k < wiring[v as int].len() && trap.contains(#[trigger] wiring[v as int][k]);
        lemma_trap(wiring, trap, to, wiring[v as int][k], (fuel - 1) as nat);
        lemma_sum_paths_none(
            wiring,
            wiring[v as int],
            wiring[v as int].len() as int,
            to,
            (fuel - 1) as nat,
            k,
        );
    }
}

/// How many of the first `upto` marks are unset.
pub open spec fn unmarked(marks: Seq<bool>, upto: int) -> nat
    decreases upto,
{
    if upto <= 0 {
        0
    } else {
        unmarked(marks, upto - 1) + (if marks[upto - 1] {
            0nat
        } else {
            1nat
        })
    }
}

proof fn lemma_mark(marks: Seq<bool>, at: int, upto: int)
    requires
        0 <= at < marks.len(),
        0 <= upto <= marks.len(),
        !marks[at],
    ensures
        unmarked(marks.update(at, true), upto) == unmarked(marks, upto) - (if at < upto {
            1int
        } else {
            0int
        }),
    decreases upto,
{
    if upto > 0 {
        lemma_mark(marks, at, upto - 1);
    }
}

/// The devices that are marked.
pub open spec fn marked(marks: Seq<bool>) -> Set<nat> {
    Set::new(|v: nat| v < marks.len() && marks[v as int])
}

/// Whether every marked device has an output to a marked device or to the
/// device `onto`.
pub open spec fn leads_on(wiring: Wiring, marks: Seq<bool>, onto: nat) -> bool {
    forall|m: nat| #[trigger]
        marked(marks).contains(m) ==> exists|k: int|
            0 <= k < wiring[m as int].len() && (marked(marks).contains(#[trigger] wiring[m as int][k])
                || wiring[m as int][k] == onto)
}

/// Marking the device that the marked devices lead on to, and going on to
/// one of its outputs, keeps them leading on.
proof fn lemma_step(wiring: Wiring, entry: Seq<bool>, at: nat, k: int, next: nat)
    requires
        leads_on(wiring, entry, at),
        at < entry.len(),
        entry.len() == wiring.len(),
        0 <= k < wiring[at as int].len(),
        wiring[at as int][k] == next,
    ensures
        leads_on(wiring, entry.update(at as int, true), next),
{
    let now = entry.update(at as int, true);
    assert forall|m: nat| #[trigger] marked(now).contains(m) implies exists|j: int|
        0 <= j < wiring[m as int].len() && (marked(now).contains(#[trigger] wiring[m as int][j])
            || wiring[m as int][j] == next) by {
        if m == at {
            assert(wiring[m as int][k] == next);
        } else {
            assert(marked(entry).contains(m));
            let j = choose|j: int|
                0 <= j < wiring[m as int].len() && (marked(entry).contains(#[trigger] wiring[m as int][j])
                    || wiring[m as int][j] == at);
            assert(marked(now).contains(wiring[m as int][j]));
        }
    }
}

/// Marked devices that lead on to a marked device are a trap.
proof fn lemma_detect(wiring: Wiring, now: Seq<bool>, to: nat, root: nat, next: nat)
    requires
        leads_on(wiring, now, next),
        now.len() == wiring.len(),
        next < now.len(),
        now[next as int],
        to < now.len(),
        !now[to as int],
        root < now.len(),
        now[root as int],
    ensures
        endless(wiring, root, to),
{
    let trap = marked(now);
    assert forall|v: nat| #[trigger] trap.contains(v) implies v < wiring.len() && exists|j: int|
        0 <= j < wiring[v as int].len() && trap.contains(#[trigger] wiring[v as int][j]) by {
        let j = choose|j: int|
            0 <= j < wiring[v as int].len() && (marked(now).contains(#[trigger] wiring[v as int][j])
                || wiring[v as int][j] == next);
        assert(trap.contains(wiring[v as int][j]));
    }
    assert(is_trap(wiring, trap, to));
    assert(trap.contains(root));
    assert forall|any: nat| (#[trigger] paths(wiring, root, to, any)) is None by {
        lemma_trap(wiring, trap, to, root, any);
    }
}

/// A count with a number of steps and a sum with another are both had with
/// the larger number.
proof fn lemma_join(wiring: Wiring, targets: Seq<nat>, k: int, to: nat, fuel: nat, sum: nat, more: nat) -> (both:
    nat)
    requires
        0 <= k < targets.len(),
        sum_paths(wiring, targets, k, to, fuel) == Some(sum),
        counted(wiring, targets[k], to, more),
    ensures
        sum_paths(wiring, targets, k + 1, to, both) == Some(sum + more),
{
    let other = choose|other: nat| #[trigger] paths(wiring, targets[k], to, other) == Some(more);
    let both = if other > fuel {
        other
    } else {
        fuel
    };
    lemma_paths_fuel(wiring, targets[k], to, other, both);
    lemma_sum_paths_fuel(wiring, targets, k, to, fuel, both);
    both
}

/// Whether the ways to `to` from the first outputs of some device are more
/// than a 64-bit number counts.
pub open spec fn too_many(wiring: Wiring, to: nat) -> bool {
    exists|v: nat, upto: int, fuel: nat|
        v < wiring.len() && 0 <= upto <= wiring[v as int].len() && beyond_count(
            #[trigger] sum_paths(wiring, wiring[v as int], upto, to, fuel),
        )
}

/// Whether `sum` is a number that is more than a 64-bit number counts.
pub open spec fn beyond_count(sum: Option<nat>) -> bool {
    sum matches Some(ways) && ways > u64::MAX
}

/// Whether `error` says why the ways from `from` to `to` have no count
/// that can be given: they never end, or there are too many ways to `to`.
pub open spec fn uncounted(wiring: Wiring, from: nat, to: nat, error: PuzzleError) -> bool {
    ||| error == PuzzleError::CyclicGraph && endless(wiring, from, to)
    ||| error == PuzzleError::Overflow && too_many(wiring, to)
}

/// Whether every count that `cache` holds is a count of ways to `to`.
pub open spec fn counts_ok(cache: Seq<Option<u64>>, wiring: Wiring, to: nat) -> bool {
    forall|v: int|
        0 <= v < cache.len() ==> ((#[trigger] cache[v]) matches Some(count) ==> counted(
            wiring,
            v as nat,
            to,
            count as nat,
        ))
}

/// Counts the ways from `from` to `to`, with the devices on the way from
/// `root` to `from` marked.
fn inner(
    network: &Graph,
    from: NodeIdx,
    to: NodeIdx,
    cache: &mut Vec<Option<u64>>,
    marks: &mut Vec<bool>,
    Ghost(root): Ghost<nat>,
) -> (r: Result<u64, PuzzleError>)
    requires
        network.wf(),
        from.0 < network.model().wiring.len(),
        to.0 < network.model().wiring.len(),
        old(cache)@.len() == network.model().wiring.len(),
        old(marks)@.len() == network.model().wiring.len(),
        counts_ok(old(cache)@, network.model().wiring, to.0 as nat),
        !old(marks)@[to.0 as int],
        !old(marks)@[from.0 as int],
        root == from.0 || old(marks)@[root as int],
        root < network.model().wiring.len(),
        leads_on(network.model().wiring, old(marks)@, from.0 as nat),
    ensures
        final(cache)@.len() == old(cache)@.len(),
        final(marks)@.len() == old(marks)@.len(),
        counts_ok(final(cache)@, network.model().wiring, to.0 as nat),
        match r {
            Ok(count) => final(marks)@ == old(marks)@ && counted(
                network.model().wiring,
                from.0 as nat,
                to.0 as nat,
                count as nat,
            ),
            Err(error) => uncounted(network.model().wiring, root, to.0 as nat, error),
        },
    decreases unmarked(old(marks)@, old(marks)@.len() as int),
{
    let ghost wiring = network.model().wiring;
    let ghost goal = to.0 as nat;
    if from.0 == to.0 {
        assert(paths(wiring, from.0 as nat, goal, 0) == Some(1nat));
        return Ok(1);
    }
    let at = from.0 as usize;
    if let Some(cached) = cache[at] {
        return Ok(cached);
    }
    let ghost entry = marks@;
    marks.set(at, true);
    proof {
        lemma_mark(entry, at as int, entry.len() as int);
    }
    let from_node = network.node(from);
    let ghost targets = wiring[at as int];
    assert(targets == from_node.neighbors@.map_values(|neighbor: NodeIdx| neighbor.0 as nat));
    let mut count: u64 = 0;
    let ghost mut fuel: nat = 0;
    let mut k: usize = 0;
    while k < from_node.neighbors.len()
        invariant
            k <= from_node.neighbors@.len(),
            network.wf(),
            wiring == network.model().wiring,
            goal == to.0,
            at == from.0,
            from.0 != to.0,
            at < wiring.len(),
            to.0 < wiring.len(),
            root < wiring.len(),
            targets == wiring[at as int],
            targets == from_node.neighbors@.map_values(|neighbor: NodeIdx| neighbor.0 as nat),
            cache@.len() == wiring.len(),
            marks@ == entry.update(at as int, true),
            entry.len() == wiring.len(),
            !entry[to.0 as int],
            !entry[at as int],
            root == from.0 || entry[root as int],
            unmarked(marks@, marks@.len() as int) < unmarked(entry, entry.len() as int),
            counts_ok(cache@, wiring, goal),
            entry == old(marks)@,
            old(cache)@.len() == wiring.len(),
            leads_on(wiring, entry, at as nat),
            sum_paths(wiring, targets, k as int, goal, fuel) == Some(count as nat),
        decreases from_node.neighbors.len() - k,
    {
        let next = from_node.neighbors[k];
        assert(targets[k as int] == next.0);
        assert(next.0 < wiring.len());
        let ghost now = marks@;
        proof {
            lemma_step(wiring, entry, at as nat, k as int, next.0 as nat);
        }
        if marks[next.0 as usize] {
            proof {
                lemma_detect(wiring, now, goal, root, next.0 as nat);
            }
            return Err(PuzzleError::CyclicGraph);
        }
        let found = inner(network, next, to, cache, marks, Ghost(root));
        match found {
            Ok(more) => {
                proof {
                    fuel = lemma_join(wiring, targets, k as int, goal, fuel, count as nat, more as nat);
                }
                count = match count.checked_add(more) {
                    Some(sum) => sum,
                    None => {
                        proof {
                            assert(beyond_count(sum_paths(wiring, wiring[at as int], k + 1, goal, fuel)));
                            assert(too_many(wiring, goal));
                        }
                        return Err(PuzzleError::Overflow);
                    },
                };
            },
            Err(error) => {
                return Err(error);
            },
        }
        k += 1;
    }
    marks.set(at, false);
    assert(marks@ =~= entry);
    let ghost before = cache@;
    cache.set(at, Some(count));
    proof {
        assert(paths(wiring, from.0 as nat, goal, fuel + 1) == Some(count as nat));
        assert(counted(wiring, from.0 as nat, goal, count as nat));
        assert forall|v: int| 0 <= v < cache@.len() implies ((#[trigger] cache@[v]) matches Some(c) ==> counted(
            wiring,
            v as nat,
            goal,
            c as nat,
        )) by {
            if v != at {
                assert(cache@[v] == before[v]);
            }
        }
    }
    Ok(count)
}

/// Counts the ways that lead from `from` to `to`. A network that leads
/// from `from`, without passing `to`, back to where it was, has no count.
pub fn count_paths(network: &Graph, from: NodeIdx, to: NodeIdx) -> (r: Result<u64, PuzzleError>)
    requires
        network.wf(),
        from.0 < network.model().wiring.len(),
        to.0 < network.model().wiring.len(),
    ensures
        match r {
            Ok(count) => counted(network.model().wiring, from.0 as nat, to.0 as nat, count as nat),
            Err(error) => uncounted(network.model().wiring, from.0 as nat, to.0 as nat, error),
        },
{
    if from.0 == to.0 {
        assert(paths(network.model().wiring, from.0 as nat, to.0 as nat, 0) == Some(1nat));
        return Ok(1);
    }
    let n = network.len();
    let mut cache: Vec<Option<u64>> = Vec::new();
    let mut marks: Vec<bool> = Vec::new();
    let mut i: usize = 0;
    while i < n
        invariant
            i <= n,
            cache@.len() == i,
            marks@.len() == i,
            forall|j: int| 0 <= j < i ==> cache@[j] is None,
            forall|j: int| 0 <= j < i ==> !marks@[j],
        decreases n - i,
    {
        cache.push(None);
        marks.push(false);
        i += 1;
    }
    assert(leads_on(network.model().wiring, marks@, from.0 as nat));
    inner(network, from, to, &mut cache, &mut marks, Ghost(from.0 as nat))
}

/// The place of the device `name` in the network `model`.
pub open spec fn place(model: GraphModel, name: Seq<char>) -> nat {
    model.names[name] as nat
}

/// Whether `r` is the count of the ways from the device `from` to the
/// device `to` of the network `model`, or says why there is none.
pub open spec fn counts(model: GraphModel, from: Seq<char>, to: Seq<char>, r: Result<u64, PuzzleError>) -> bool {
    match r {
        Ok(count) => counted(model.wiring, place(model, from), place(model, to), count as nat),
        Err(error) => uncounted(model.wiring, place(model, from), place(model, to), error),
    }
}

/// Counts the ways from the device `you` to the device `out`. An input
/// that describes no network is refused as reading it says, and so is a
/// network without one of the two devices.
pub fn a(input: &str) -> (r: Result<u64, PuzzleError>)
    ensures
        match spec_parse(input@) {
            Err(error) => r == Err::<u64, PuzzleError>(error),
            Ok(model) => if !model.names.contains_key("you"@) {
                r == Err::<u64, PuzzleError>(PuzzleError::MissingYou)
            } else if !model.names.contains_key("out"@) {
                r == Err::<u64, PuzzleError>(PuzzleError::MissingOut)
            } else {
                counts(model, "you"@, "out"@, r)
            },
        },
{
    let network = match parse(input) {
        Ok(network) => network,
        Err(error) => {
            return Err(error);
        },
    };
    let you = match get_node_idx(&network, "you", PuzzleError::MissingYou) {
        Ok(idx) => idx,
        Err(error) => {
            return Err(error);
        },
    };
    let out = match get_node_idx(&network, "out", PuzzleError::MissingOut) {
        Ok(idx) => idx,
        Err(error) => {
            return Err(error);
        },
    };
    count_paths(&network, you, out)
}

/// The numbers `a`, `b` and `c` multiplied, where that is a 64-bit number.
fn product3(a: u64, b: u64, c: u64) -> (r: Option<u64>)
    ensures
        r == (if a * b * c <= u64::MAX && a * b <= u64::MAX {
            Some((a * b * c) as u64)
        } else {
            None
        }),
{
    match a.checked_mul(b) {
        Some(ab) => ab.checked_mul(c),
        None => None,
    }
}

/// Counts the ways from the device `svr` to the device `out` that pass
/// both the device `dac` and the device `fft`. In a network without ways
/// back, ways lead from one of the two to the other at most in one
/// direction; the count is that of the ways from `svr` to the first, times
/// those from the first to the second, times those from the second to
/// `out`.
pub fn b(input: &str) -> (r: Result<u64, PuzzleError>)
    ensures
        match spec_parse(input@) {
            Err(error) => r == Err::<u64, PuzzleError>(error),
            Ok(model) => if !model.names.contains_key("svr"@) {
                r == Err::<u64, PuzzleError>(PuzzleError::MissingSvr)
            } else if !model.names.contains_key("dac"@) {
                r == Err::<u64, PuzzleError>(PuzzleError::MissingDac)
            } else if !model.names.contains_key("fft"@) {
                r == Err::<u64, PuzzleError>(PuzzleError::MissingFft)
            } else if !model.names.contains_key("out"@) {
                r == Err::<u64, PuzzleError>(PuzzleError::MissingOut)
            } else {
                match r {
                    Ok(count) => passes_both(model, count),
                    Err(error) => fails_both(model, error),
                }
            },
        },
{
    let network = match parse(input) {
        Ok(network) => network,
        Err(error) => {
            return Err(error);
        },
    };
    let ghost model = network.model();
    let svr = match get_node_idx(&network, "svr", PuzzleError::MissingSvr) {
        Ok(idx) => idx,
        Err(error) => {
            return Err(error);
        },
    };
    let dac = match get_node_idx(&network, "dac", PuzzleError::MissingDac) {
        Ok(idx) => idx,
        Err(error) => {
            return Err(error);
        },
    };
    let fft = match get_node_idx(&network, "fft", PuzzleError::MissingFft) {
        Ok(idx) => idx,
        Err(error) => {
            return Err(error);
        },
    };
    let out = match get_node_idx(&network, "out", PuzzleError::MissingOut) {
        Ok(idx) => idx,
        Err(error) => {
            return Err(error);
        },
    };
    let dac_fft = match count_paths(&network, dac, fft) {
        Ok(count) => count,
        Err(error) => {
            return Err(error);
        },
    };
    let fft_dac = match count_paths(&network, fft, dac) {
        Ok(count) => count,
        Err(error) => {
            return Err(error);
        },
    };
    if dac_fft == 0 && fft_dac == 0 {
        assert(neither_way(model));
        return Ok(0);
    }
    if dac_fft != 0 && fft_dac != 0 {
        return Err(PuzzleError::CyclicGraph);
    }
    let (int1, int2, int_paths) = if fft_dac == 0 {
        (dac, fft, dac_fft)
    } else {
        (fft, dac, fft_dac)
    };
    let svr_int1 = match count_paths(&network, svr, int1) {
        Ok(count) => count,
        Err(error) => {
            return Err(error);
        },
    };
    let int2_out = match count_paths(&network, int2, out) {
        Ok(count) => count,
        Err(error) => {
            return Err(error);
        },
    };
    match product3(svr_int1, int_paths, int2_out) {
        Some(count) => {
            proof {
                if fft_dac == 0 {
                    assert(one_way(model, "dac"@, "fft"@, int_paths, svr_int1, int2_out) && count == svr_int1
                        * int_paths * int2_out);
                } else {
                    assert(one_way(model, "fft"@, "dac"@, int_paths, svr_int1, int2_out) && count == svr_int1
                        * int_paths * int2_out);
                }
            }
            Ok(count)
        },
        None => {
            proof {
                let wiring = model.wiring;
                if fft_dac == 0 {
                    assert(one_way(model, "dac"@, "fft"@, int_paths, svr_int1, int2_out));
                    assert(counted(wiring, place(model, "dac"@), place(model, "fft"@), int_paths as nat));
                    assert(one_way_fails(model, "dac"@, "fft"@, PuzzleError::Overflow));
                } else {
                    assert(one_way(model, "fft"@, "dac"@, int_paths, svr_int1, int2_out));
                    assert(counted(wiring, place(model, "fft"@), place(model, "dac"@), int_paths as nat));
                    assert(one_way_fails(model, "fft"@, "dac"@, PuzzleError::Overflow));
                }
            }
            Err(PuzzleError::Overflow)
        },
    }
}

/// Whether `error` says why the ways that pass `first` and then `second`
/// have no count that can be given, where ways lead from `first` to
/// `second` and none back: the ways from `svr` to `first`, or those from
/// `second` to `out`, have none, or the three counts multiplied are more
/// than a 64-bit number.
pub open spec fn one_way_fails(model: GraphModel, first: Seq<char>, second: Seq<char>, error: PuzzleError) -> bool {
    let wiring = model.wiring;
    &&& exists|between: u64|
        between > 0 && #[trigger] counted(wiring, place(model, first), place(model, second), between as nat)
    &&& counted(wiring, place(model, second), place(model, first), 0)
    &&& {
        ||| uncounted(wiring, place(model, "svr"@), place(model, first), error)
        ||| uncounted(wiring, place(model, second), place(model, "out"@), error)
        ||| error == PuzzleError::Overflow && exists|between: u64, before: u64, after: u64| #[trigger]
            one_way(model, first, second, between, before, after) && (before * between > u64::MAX || before
                * between * after > u64::MAX)
    }
}

/// Whether ways lead from `dac` to `fft` and from `fft` to `dac` as well.
pub open spec fn both_ways(model: GraphModel) -> bool {
    exists|there: u64, back: u64|
        there > 0 && back > 0 && #[trigger] counted(
            model.wiring,
            place(model, "dac"@),
            place(model, "fft"@),
            there as nat,
        ) && #[trigger] counted(model.wiring, place(model, "fft"@), place(model, "dac"@), back as nat)
}

/// Whether `error` says why [`b`] gives no count for the network `model`:
/// ways between `dac` and `fft` have no count or lead both ways, which is
/// a cycle, or the ways before and after them fail as [`one_way_fails`]
/// says.
pub open spec fn fails_both(model: GraphModel, error: PuzzleError) -> bool {
    ||| uncounted(model.wiring, place(model, "dac"@), place(model, "fft"@), error)
    ||| uncounted(model.wiring, place(model, "fft"@), place(model, "dac"@), error)
    ||| error == PuzzleError::CyclicGraph && both_ways(model)
    ||| one_way_fails(model, "dac"@, "fft"@, error)
    ||| one_way_fails(model, "fft"@, "dac"@, error)
}

/// Whether `count` is the number of ways from `svr` to `out` that pass both
/// `dac` and `fft`, as [`b`] works it out.
pub open spec fn passes_both(model: GraphModel, count: u64) -> bool {
    ||| count == 0 && neither_way(model)
    ||| one_way_count(model, "dac"@, "fft"@, count)
    ||| one_way_count(model, "fft"@, "dac"@, count)
}

/// Whether `count` is the product of the three counts of [`one_way`].
pub open spec fn one_way_count(model: GraphModel, first: Seq<char>, second: Seq<char>, count: u64) -> bool {
    exists|between: u64, before: u64, after: u64| #[trigger]
        one_way(model, first, second, between, before, after) && count == before * between * after
}

/// Whether no way leads from `dac` to `fft` and none from `fft` to `dac`.
pub open spec fn neither_way(model: GraphModel) -> bool {
    &&& model.names.contains_key("dac"@) && model.names.contains_key("fft"@)
    &&& counted(model.wiring, model.names["dac"@] as nat, model.names["fft"@] as nat, 0)
    &&& counted(model.wiring, model.names["fft"@] as nat, model.names["dac"@] as nat, 0)
}

/// Whether `between` ways, and not none, lead from the device `first` to
/// the device `second` and none back, `before` lead from `svr` to `first`,
/// and `after` from `second` to `out`.
pub open spec fn one_way(
    model: GraphModel,
    first: Seq<char>,
    second: Seq<char>,
    between: u64,
    before: u64,
    after: u64,
) -> bool {
    let names = model.names;
    &&& names.contains_key("svr"@) && names.contains_key(first) && names.contains_key(second)
        && names.contains_key("out"@)
    &&& between > 0
    &&& counted(model.wiring, names[first] as nat, names[second] as nat, between as nat)
    &&& counted(model.wiring, names[second] as nat, names[first] as nat, 0)
    &&& counted(model.wiring, names["svr"@] as nat, names[first] as nat, before as nat)
    &&& counted(model.wiring, names[second] as nat, names["out"@] as nat, after as nat)
}

/// The solvers of both parts.
pub fn solution() -> (solution: Solution)
    ensures
        solution.part_a() is Some,
        solution.part_b() is Some,
{
    Solution::new().with_a(|input: &str| -> (r: Result<u64, String>) { shown(a(input)) }).with_b(
        |input: &str| -> (r: Result<u64, String>) { shown(b(input)) },
    )
}

} // verus!
