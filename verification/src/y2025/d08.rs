//! Day 8: junction boxes in space, wired up from the closest pair on.
use vstd::prelude::*;
use crate::solution::Solution;
use crate::util::parse::{read_digits, read_number};
use crate::util::text::{lines, split_lines, to_chars, views};
use crate::util::vector::{index_pairs, lists_pair, vec3, IVec3};
use crate::y2025::{collect, lemma_collect_fails, shown, PuzzleError};

verus! {

/// The whole number written at `pos`: digits, as many as there are, after
/// a `+`, a `-` or nothing; with the index after them.
pub open spec fn read_signed(s: Seq<char>, pos: int) -> Option<(int, int)> {
    if 0 <= pos < s.len() && s[pos] == '-' {
        match read_number(s, pos + 1, 0x8000_0000_0000_0000) {
            Some((value, end)) => Some((-(value as int), end)),
            None => None,
        }
    } else if 0 <= pos < s.len() && s[pos] == '+' {
        match read_number(s, pos + 1, i64::MAX as nat) {
            Some((value, end)) => Some((value as int, end)),
            None => None,
        }
    } else {
        match read_number(s, pos, i64::MAX as nat) {
            Some((value, end)) => Some((value as int, end)),
            None => None,
        }
    }
}

fn parse_signed_at(text: &Vec<char>, pos: usize) -> (r: Option<(i64, usize)>)
    requires
        pos <= text@.len(),
    ensures
        match r {
            Some((value, end)) => read_signed(text@, pos as int) == Some((value as int, end as int)) && pos < end
                <= text@.len(),
            None => read_signed(text@, pos as int) is None,
        },
{
    if pos < text.len() && text[pos] == '-' {
        match read_digits(text, pos + 1, 0x8000_0000_0000_0000u128) {
            Some((value, end)) => Some(((-(value as i128)) as i64, end)),
            None => None,
        }
    } else if pos < text.len() && text[pos] == '+' {
        match read_digits(text, pos + 1, i64::MAX as u128) {
            Some((value, end)) => Some((value as i64, end)),
            None => None,
        }
    } else {
        match read_digits(text, pos, i64::MAX as u128) {
            Some((value, end)) => Some((value as i64, end)),
            None => None,
        }
    }
}

/// The box that `line` begins with: three whole numbers with commas
/// between. What follows them is not read.
pub open spec fn spec_parse_node(line: Seq<char>) -> Result<IVec3, PuzzleError> {
    match read_signed(line, 0) {
        Some((x, first)) => if 0 <= first < line.len() && line[first] == ',' {
            match read_signed(line, first + 1) {
                Some((y, second)) => if 0 <= second < line.len() && line[second] == ',' {
                    match read_signed(line, second + 1) {
                        Some((z, end)) => Ok(IVec3 { x: x as i64, y: y as i64, z: z as i64 }),
                        None => Err(PuzzleError::InvalidInput),
                    }
                } else {
                    Err(PuzzleError::InvalidInput)
                },
                None => Err(PuzzleError::InvalidInput),
            }
        } else {
            Err(PuzzleError::InvalidInput)
        },
        None => Err(PuzzleError::InvalidInput),
    }
}

/// Reads the box that `line` begins with.
pub fn parse_node(line: &Vec<char>) -> (r: Result<IVec3, PuzzleError>)
    ensures
        r == spec_parse_node(line@),
{
    let (x, first) = match parse_signed_at(line, 0) {
        Some(read) => read,
        None => {
            return Err(PuzzleError::InvalidInput);
        },
    };
    if !(first < line.len() && line[first] == ',') {
        return Err(PuzzleError::InvalidInput);
    }
    let (y, second) = match parse_signed_at(line, first + 1) {
        Some(read) => read,
        None => {
            return Err(PuzzleError::InvalidInput);
        },
    };
    if !(second < line.len() && line[second] == ',') {
        return Err(PuzzleError::InvalidInput);
    }
    let (z, end) = match parse_signed_at(line, second + 1) {
        Some(read) => read,
        None => {
            return Err(PuzzleError::InvalidInput);
        },
    };
    Ok(vec3(x, y, z))
}

/// [`spec_parse_node`] as a value.
pub open spec fn node_reader() -> spec_fn(Seq<char>) -> Result<IVec3, PuzzleError> {
    |line: Seq<char>| spec_parse_node(line)
}

/// The boxes that the lines of `text` write.
pub open spec fn spec_parse(text: Seq<char>) -> Result<Seq<IVec3>, PuzzleError> {
    collect(lines(text), node_reader())
}

/// Reads the boxes that the lines of `input` write.
pub fn parse(input: &str) -> (r: Result<Vec<IVec3>, PuzzleError>)
    ensures
        match r {
            Ok(nodes) => spec_parse(input@) == Ok::<Seq<IVec3>, PuzzleError>(nodes@),
            Err(error) => spec_parse(input@) == Err::<Seq<IVec3>, PuzzleError>(error),
        },
{
    let text = to_chars(input);
    let rows = split_lines(&text);
    let ghost all = lines(input@);
    let ghost read = node_reader();
    let mut nodes: Vec<IVec3> = Vec::new();
    let mut i: usize = 0;
    assert(all.take(0) =~= Seq::<Seq<char>>::empty());
    while i < rows.len()
        invariant
            i <= rows@.len(),
            views(rows@) == all,
            all == lines(input@),
            read == node_reader(),
            collect(all.take(i as int), read) == Ok::<Seq<IVec3>, PuzzleError>(nodes@),
        decreases rows.len() - i,
    {
        proof {
            assert(all.take(i + 1).drop_last() =~= all.take(i as int));
            assert(all.take(i + 1).last() == rows@[i as int]@);
        }
        match parse_node(&rows[i]) {
            Ok(node) => {
                nodes.push(node);
            },
            Err(error) => {
                proof {
                    lemma_collect_fails(all, read, i + 1);
                }
                return Err(error);
            },
        }
        i += 1;
    }
    assert(all.take(i as int) =~= all);
    Ok(nodes)
}

/// A connection that can be made: the places of two boxes in the list, the
/// lesser first, and the square of the distance between the boxes.
#[derive(Debug, Clone, Copy, PartialEq, Eq, Structural)]
pub struct Edge {
    pub left: usize,
    pub right: usize,
    pub d2: i64,
}

/// The square of the distance between `a` and `b`.
pub open spec fn distance2(a: IVec3, b: IVec3) -> int {
    (b.x - a.x) * (b.x - a.x) + (b.y - a.y) * (b.y - a.y) + (b.z - a.z) * (b.z - a.z)
}

/// Whether `edge` is a connection between two of `nodes`.
pub open spec fn joins(nodes: Seq<IVec3>, edge: Edge) -> bool {
    edge.left < edge.right < nodes.len() && edge.d2 == distance2(nodes[edge.left as int], nodes[edge.right as int])
}

/// Whether the connections come from the shortest to the longest.
pub open spec fn by_distance(edges: Seq<Edge>) -> bool {
    forall|i: int, j: int| 0 <= i <= j < edges.len() ==> (#[trigger] edges[i]).d2 <= (#[trigger] edges[j]).d2
}

/// Whether `edges` holds a connection for the boxes `i` and `j`.
pub open spec fn lists_edge(edges: Seq<Edge>, i: usize, j: usize) -> bool {
    exists|k: int| 0 <= k < edges.len() && (#[trigger] edges[k]).left == i && edges[k].right == j
}

/// How many pairs there are of `n` things.
pub open spec fn pair_count(n: nat) -> nat {
    (n * (n - 1) / 2) as nat
}

/// The square of the distance between the boxes `i` and `j` of `nodes`.
pub open spec fn span(nodes: Seq<IVec3>, i: int, j: int) -> int {
    distance2(nodes[i], nodes[j])
}

/// Whether the square of the distance between any two of `nodes` is a
/// 64-bit number.
pub open spec fn measured(nodes: Seq<IVec3>) -> bool {
    forall|i: int, j: int| 0 <= i < j < nodes.len() ==> #[trigger] span(nodes, i, j) <= i64::MAX
}

/// Whether `edges` are the connections between all pairs of `nodes`, one
/// for each pair, from the shortest to the longest. In which order
/// connections of one length come is left open.
pub open spec fn candidates_of(nodes: Seq<IVec3>, edges: Seq<Edge>) -> bool {
    &&& by_distance(edges)
    &&& edges.len() == pair_count(nodes.len())
    &&& forall|k: int| 0 <= k < edges.len() ==> joins(nodes, #[trigger] edges[k])
    &&& forall|i: usize, j: usize| i < j < nodes.len() ==> #[trigger] lists_edge(edges, i, j)
}

/// Puts `edges` in the order of their lengths. This is
/// `slice::sort_unstable_by_key` with the squared distance as the key: the
/// connections are the same afterwards, each as often as before, and come
/// from the shortest to the longest, as many as before. In which order
/// connections of one length come is left open.
#[verifier::external_body]
fn sort_by_distance(edges: &mut Vec<Edge>)
    ensures
        final(edges)@.len() == old(edges)@.len(),
        final(edges)@.to_multiset() == old(edges)@.to_multiset(),
        by_distance(final(edges)@),
{
    edges.sort_unstable_by_key(|edge| edge.d2)
}

/// The square of the distance between `a` and `b`, where it is a 64-bit
/// number.
fn squared_distance(a: IVec3, b: IVec3) -> (r: Option<i64>)
    ensures
        r == (if distance2(a, b) <= i64::MAX {
            Some(distance2(a, b) as i64)
        } else {
            None
        }),
        r matches Some(d2) ==> d2 == distance2(a, b),
{
    let dx = b.x as i128 - a.x as i128;
    let dy = b.y as i128 - a.y as i128;
    let dz = b.z as i128 - a.z as i128;
    let limit: i128 = 0x1_0000_0000;
    if dx >= limit || dx <= -limit || dy >= limit || dy <= -limit || dz >= limit || dz <= -limit {
        proof {
            assert(forall|d: int| d >= 0x1_0000_0000 || d <= -0x1_0000_0000 ==> #[trigger] (d * d)
                >= 0x1_0000_0000_0000_0000) by (nonlinear_arith);
            assert(forall|d: int| #[trigger] (d * d) >= 0) by (nonlinear_arith);
            assert(dx * dx >= 0 && dy * dy >= 0 && dz * dz >= 0);
        }
        return None;
    }
    assert(forall|d: int| -0x1_0000_0000 < d < 0x1_0000_0000 ==> 0 <= #[trigger] (d * d)
        <= 0x1_0000_0000_0000_0000) by (nonlinear_arith);
    assert(0 <= dx * dx <= 0x1_0000_0000_0000_0000);
    assert(0 <= dy * dy <= 0x1_0000_0000_0000_0000);
    assert(0 <= dz * dz <= 0x1_0000_0000_0000_0000);
    let sum = dx * dx + dy * dy + dz * dz;
    if sum > i64::MAX as i128 {
        None
    } else {
        Some(sum as i64)
    }
}

impl Edge {
    /// The connections between all pairs of `nodes`, from the shortest to
    /// the longest. Nothing comes back where a distance is too large for
    /// its square to be a 64-bit number, and only there.
    pub fn candidates(nodes: &Vec<IVec3>) -> (r: Option<Vec<Edge>>)
        ensures
            match r {
                Some(edges) => measured(nodes@) && candidates_of(nodes@, edges@),
                None => !measured(nodes@),
            },
    {
        let pairs = index_pairs(nodes.len());
        let mut edges: Vec<Edge> = Vec::new();
        let mut k: usize = 0;
        while k < pairs.len()
            invariant
                k <= pairs@.len(),
                pairs@.len() == pair_count(nodes@.len()),
                edges@.len() == k,
                forall|m: int| 0 <= m < pairs@.len() ==> (#[trigger] pairs@[m]).0 < pairs@[m].1 < nodes@.len(),
                forall|m: int|
                    0 <= m < k ==> joins(nodes@, #[trigger] edges@[m]) && edges@[m].left == pairs@[m].0
                        && edges@[m].right == pairs@[m].1,
            decreases pairs.len() - k,
        {
            let (li, ri) = pairs[k];
            assert(pairs@[k as int].0 < pairs@[k as int].1 < nodes@.len());
            let d2 = match squared_distance(nodes[li], nodes[ri]) {
                Some(d2) => d2,
                None => {
                    assert(span(nodes@, li as int, ri as int) > i64::MAX);
                    return None;
                },
            };
            let ghost before = edges@;
            edges.push(Edge { left: li, right: ri, d2 });
            proof {
                assert(edges@[k as int] == (Edge { left: li, right: ri, d2 }));
                assert(pairs@[k as int].0 < pairs@[k as int].1 < nodes@.len());
                assert(pairs@[k as int] == (li, ri));
                assert(d2 == distance2(nodes@[li as int], nodes@[ri as int]));
                assert(joins(nodes@, edges@[k as int]));
                assert forall|m: int| 0 <= m < k + 1 implies joins(nodes@, #[trigger] edges@[m]) && edges@[m].left
                    == pairs@[m].0 && edges@[m].right == pairs@[m].1 by {
                    if m < k {
                        assert(edges@[m] == before[m]);
                    }
                }
            }
            k += 1;
        }
        let ghost unsorted = edges@;
        proof {
            assert forall|i: usize, j: usize| i < j < nodes@.len() implies #[trigger] lists_edge(unsorted, i, j) by {
                assert(lists_pair(pairs@, i, j));
                let m = choose|m: int| 0 <= m < pairs@.len() && #[trigger] pairs@[m] == (i, j);
                assert(unsorted[m].left == i && unsorted[m].right == j);
            }
            assert forall|i: int, j: int| 0 <= i < j < nodes@.len() implies #[trigger] span(nodes@, i, j)
                <= i64::MAX by {
                assert(lists_pair(pairs@, i as usize, j as usize));
                let m = choose|m: int| 0 <= m < pairs@.len() && #[trigger] pairs@[m] == (i as usize, j as usize);
                assert(joins(nodes@, unsorted[m]));
            }
        }
        sort_by_distance(&mut edges);
        proof {
            lemma_same_edges(nodes@, unsorted, edges@);
        }
        Some(edges)
    }
}

/// Lists that hold the same connections, each as often, hold connections
/// of the same boxes.
proof fn lemma_same_edges(nodes: Seq<IVec3>, a: Seq<Edge>, b: Seq<Edge>)
    requires
        a.to_multiset() == b.to_multiset(),
        forall|k: int| 0 <= k < a.len() ==> joins(nodes, #[trigger] a[k]),
        forall|i: usize, j: usize| i < j < nodes.len() ==> #[trigger] lists_edge(a, i, j),
    ensures
        forall|k: int| 0 <= k < b.len() ==> joins(nodes, #[trigger] b[k]),
        forall|i: usize, j: usize| i < j < nodes.len() ==> #[trigger] lists_edge(b, i, j),
{
    broadcast use vstd::seq_lib::group_to_multiset_ensures;

    assert forall|k: int| 0 <= k < b.len() implies joins(nodes, #[trigger] b[k]) by {
        assert(b.to_multiset().count(b[k]) > 0);
        assert(a.contains(b[k]));
        let m = choose|m: int| 0 <= m < a.len() && a[m] == b[k];
        assert(joins(nodes, a[m]));
    }
    assert forall|i: usize, j: usize| i < j < nodes.len() implies #[trigger] lists_edge(b, i, j) by {
        assert(lists_edge(a, i, j));
        let m = choose|m: int| 0 <= m < a.len() && (#[trigger] a[m]).left == i && a[m].right == j;
        assert(a.to_multiset().count(a[m]) > 0);
        assert(b.contains(a[m]));
        let k = choose|k: int| 0 <= k < b.len() && b[k] == a[m];
        assert(b[k].left == i && b[k].right == j);
    }
}

/// The circuits as numbers: for each box the circuit it is in; for each
/// circuit its boxes, in the order they came; and how many circuits have
/// boxes.
pub struct CircuitsModel {
    pub index: Seq<usize>,
    pub members: Seq<Seq<usize>>,
    pub count: nat,
}

/// The boxes wired into circuits.
pub struct Circuits {
    circuits: Vec<Vec<usize>>,
    index: Vec<usize>,
    count: usize,
}

/// `index` with the first `upto` of `moved` put in the circuit `dst`.
pub open spec fn relabel(index: Seq<usize>, moved: Seq<usize>, dst: usize, upto: int) -> Seq<usize>
    decreases upto,
{
    if upto <= 0 {
        index
    } else {
        relabel(index, moved, dst, upto - 1).update(moved[upto - 1] as int, dst)
    }
}

impl CircuitsModel {
    /// Every box in a circuit of its own.
    pub open spec fn new(size: nat) -> CircuitsModel {
        CircuitsModel {
            index: Seq::new(size, |i: int| i as usize),
            members: Seq::new(size, |i: int| seq![i as usize]),
            count: size,
        }
    }

    /// Boxes and circuits are numbered alike, and every number names
    /// one.
    pub open spec fn wf(self) -> bool {
        &&& self.index.len() == self.members.len()
        &&& self.count <= self.index.len()
        &&& forall|v: int| 0 <= v < self.index.len() ==> (#[trigger] self.index[v]) < self.index.len()
        &&& forall|c: int, k: int|
            0 <= c < self.members.len() && 0 <= k < self.members[c].len() ==> (#[trigger] self.members[c][k])
                < self.index.len()
    }

    /// The circuits after the boxes `left` and `right` are connected: the
    /// circuit of `right` joins that of `left`, unless they are one
    /// already.
    pub open spec fn connect(self, left: usize, right: usize) -> CircuitsModel {
        let dst = self.index[left as int];
        let src = self.index[right as int];
        if dst == src {
            self
        } else {
            CircuitsModel {
                index: relabel(self.index, self.members[src as int], dst, self.members[src as int].len() as int),
                members: self.members.update(dst as int, self.members[dst as int] + self.members[src as int]).update(
                    src as int,
                    Seq::empty(),
                ),
                count: if self.count > 0 {
                    (self.count - 1) as nat
                } else {
                    0
                },
            }
        }
    }

    /// The circuits after the first `upto` of `edges` are made.
    pub open spec fn connect_all(self, edges: Seq<Edge>, upto: int) -> CircuitsModel
        decreases upto,
    {
        if upto <= 0 {
            self
        } else {
            self.connect_all(edges, upto - 1).connect(edges[upto - 1].left, edges[upto - 1].right)
        }
    }
}

proof fn lemma_relabel(index: Seq<usize>, moved: Seq<usize>, dst: usize, upto: int)
    requires
        0 <= upto <= moved.len(),
        dst < index.len(),
        forall|v: int| 0 <= v < index.len() ==> (#[trigger] index[v]) < index.len(),
        forall|k: int| 0 <= k < moved.len() ==> (#[trigger] moved[k]) < index.len(),
    ensures
        relabel(index, moved, dst, upto).len() == index.len(),
        forall|v: int| 0 <= v < index.len() ==> (#[trigger] relabel(index, moved, dst, upto)[v]) < index.len(),
    decreases upto,
{
    if upto > 0 {
        lemma_relabel(index, moved, dst, upto - 1);
    }
}

impl Circuits {
    /// The circuits as numbers.
    pub closed spec fn model(&self) -> CircuitsModel {
        CircuitsModel {
            index: self.index@,
            members: self.circuits@.map_values(|circuit: Vec<usize>| circuit@),
            count: self.count as nat,
        }
    }

    /// `size` boxes, each in a circuit of its own.
    pub fn new(size: usize) -> (circuits: Circuits)
        ensures
            circuits.model() == CircuitsModel::new(size as nat),
            circuits.model().wf(),
    {
        let mut members: Vec<Vec<usize>> = Vec::new();
        let mut index: Vec<usize> = Vec::new();
        let mut i: usize = 0;
        while i < size
            invariant
                i <= size,
                members@.len() == i,
                index@.len() == i,
                forall|j: int| 0 <= j < i ==> #[trigger] index@[j] == j,
                forall|j: int| 0 <= j < i ==> (#[trigger] members@[j])@ == seq![j as usize],
            decreases size - i,
        {
            let mut circuit: Vec<usize> = Vec::new();
            circuit.push(i);
            assert(circuit@ =~= seq![i]);
            members.push(circuit);
            index.push(i);
            i += 1;
        }
        let circuits = Circuits { circuits: members, index, count: size };
        proof {
            assert(circuits.model().index =~= CircuitsModel::new(size as nat).index);
            assert(circuits.model().members =~= CircuitsModel::new(size as nat).members);
        }
        circuits
    }

    /// Whether all boxes are in one circuit.
    pub fn is_single_circuit(&self) -> (single: bool)
        ensures
            single == (self.model().count == 1),
    {
        self.len() == 1
    }

    /// How many circuits there are.
    pub fn len(&self) -> (n: usize)
        ensures
            n == self.model().count,
    {
        self.count
    }

    /// Connects the boxes `left` and `right`, and tells whether that joined
    /// two circuits.
    pub fn connect(&mut self, left: usize, right: usize) -> (joined: bool)
        requires
            old(self).model().wf(),
            left < old(self).model().index.len(),
            right < old(self).model().index.len(),
        ensures
            final(self).model() == old(self).model().connect(left, right),
            final(self).model().wf(),
            joined == (old(self).model().index[left as int] != old(self).model().index[right as int]),
    {
        let lci = self.get_node_circuit(left);
        let rci = self.get_node_circuit(right);
        if lci != rci {
            self.merge_circuits(lci, rci);
            true
        } else {
            false
        }
    }

    /// The sizes of the circuits that have boxes, in the order of the
    /// circuits.
    pub fn iter(&self) -> (sizes: Vec<u64>)
        ensures
            sizes@ == sizes_of(self.model().members, self.model().members.len() as int),
            forall|i: int| 0 <= i < sizes@.len() ==> #[trigger] sizes@[i] >= 1,
    {
        let mut sizes: Vec<u64> = Vec::new();
        let mut c: usize = 0;
        while c < self.circuits.len()
            invariant
                c <= self.circuits@.len(),
                sizes@ == sizes_of(self.model().members, c as int),
                forall|i: int| 0 <= i < sizes@.len() ==> #[trigger] sizes@[i] >= 1,
            decreases self.circuits.len() - c,
        {
            assert(self.model().members[c as int] == self.circuits@[c as int]@);
            if self.circuits[c].len() > 0 {
                sizes.push(self.circuits[c].len() as u64);
            }
            c += 1;
        }
        sizes
    }

    fn get_node_circuit(&self, node: usize) -> (circuit: usize)
        requires
            node < self.model().index.len(),
        ensures
            circuit == self.model().index[node as int],
    {
        self.index[node]
    }

    fn merge_circuits(&mut self, dst: usize, src: usize)
        requires
            old(self).model().wf(),
            dst < old(self).model().index.len(),
            src < old(self).model().index.len(),
            dst != src,
        ensures
            final(self).model().wf(),
            final(self).model().index == relabel(
                old(self).model().index,
                old(self).model().members[src as int],
                dst,
                old(self).model().members[src as int].len() as int,
            ),
            final(self).model().members == old(self).model().members.update(
                dst as int,
                old(self).model().members[dst as int] + old(self).model().members[src as int],
            ).update(src as int, Seq::empty()),
            final(self).model().count == (if old(self).model().count > 0 {
                old(self).model().count - 1
            } else {
                0
            }),
    {
        let ghost before = self.model();
        let ghost rooms = self.circuits@;
        assert(rooms.len() == before.members.len());
        assert(before.members[src as int] == rooms[src as int]@);
        assert(before.members[dst as int] == rooms[dst as int]@);
        let mut rc: Vec<usize> = Vec::new();
        std::mem::swap(&mut self.circuits[src], &mut rc);
        let ghost moved = rc@;
        let ghost emptied = self.circuits@;
        assert(moved == before.members[src as int]);
        assert forall|m: int| 0 <= m < moved.len() implies (#[trigger] moved[m]) < before.index.len() by {
            assert(before.members[src as int][m] < before.index.len());
        }
        let mut k: usize = 0;
        while k < rc.len()
            invariant
                k <= rc@.len(),
                rc@ == moved,
                dst < before.index.len(),
                forall|v: int| 0 <= v < before.index.len() ==> (#[trigger] before.index[v]) < before.index.len(),
                forall|m: int| 0 <= m < moved.len() ==> (#[trigger] moved[m]) < before.index.len(),
                self.index@ == relabel(before.index, moved, dst, k as int),
                self.index@.len() == before.index.len(),
                self.circuits@ == emptied,
                self.count == before.count,
            decreases rc.len() - k,
        {
            let node = rc[k];
            assert(moved[k as int] < before.index.len());
            self.index.set(node, dst);
            proof {
                lemma_relabel(before.index, moved, dst, k + 1);
            }
            k += 1;
        }
        assert(emptied.len() == rooms.len());
        let mut lc: Vec<usize> = Vec::new();
        std::mem::swap(&mut self.circuits[dst], &mut lc);
        assert(lc@ == rooms[dst as int]@);
        lc.append(&mut rc);
        std::mem::swap(&mut self.circuits[dst], &mut lc);
        self.count = self.count.saturating_sub(1);
        proof {
            let after = self.model();
            lemma_relabel(before.index, moved, dst, moved.len() as int);
            assert(self.circuits@.len() == rooms.len());
            assert(self.circuits@[src as int]@ =~= Seq::<usize>::empty());
            assert(self.circuits@[dst as int]@ =~= rooms[dst as int]@ + moved);
            assert forall|c: int| 0 <= c < rooms.len() && c != src && c != dst implies self.circuits@[c]
                == rooms[c] by {}
            assert forall|c: int| 0 <= c < rooms.len() implies #[trigger] before.members[c] == rooms[c]@ by {}
            assert forall|c: int| 0 <= c < rooms.len() implies #[trigger] after.members[c] == self.circuits@[c]@ by {}
            assert(after.members =~= before.members.update(
                dst as int,
                before.members[dst as int] + before.members[src as int],
            ).update(src as int, Seq::empty())) by {
                assert forall|c: int| 0 <= c < after.members.len() implies #[trigger] after.members[c]
                    == before.members.update(
                    dst as int,
                    before.members[dst as int] + before.members[src as int],
                ).update(src as int, Seq::empty())[c] by {
                    if c == src {
                        assert(after.members[c] =~= Seq::<usize>::empty());
                    } else if c == dst {
                        assert(after.members[c] =~= before.members[dst as int] + before.members[src as int]);
                    } else {
                        assert(after.members[c] == before.members[c]);
                    }
                }
            }
            assert forall|c: int, m: int|
                0 <= c < after.members.len() && 0 <= m < after.members[c].len() implies (
            #[trigger] after.members[c][m]) < after.index.len() by {
                if c == dst {
                    if m < before.members[dst as int].len() {
                        assert(before.members[dst as int][m] < before.index.len());
                    } else {
                        assert(before.members[src as int][m - before.members[dst as int].len()]
                            < before.index.len());
                    }
                } else if c != src {
                    assert(before.members[c][m] < before.index.len());
                }
            }
        }
    }
}

/// The sizes of the first `upto` of `members` that are not empty.
pub open spec fn sizes_of(members: Seq<Seq<usize>>, upto: int) -> Seq<u64>
    decreases upto,
{
    if upto <= 0 {
        Seq::empty()
    } else if members[upto - 1].len() > 0 {
        sizes_of(members, upto - 1).push(members[upto - 1].len() as u64)
    } else {
        sizes_of(members, upto - 1)
    }
}

/// Whether the numbers come in ascending order.
pub open spec fn ascending(sizes: Seq<u64>) -> bool {
    forall|i: int, j: int| 0 <= i <= j < sizes.len() ==> (#[trigger] sizes[i]) <= (#[trigger] sizes[j])
}

/// Puts `sizes` in ascending order. This is `slice::sort_unstable`: the
/// numbers are the same afterwards, each as often as before, as many as
/// before, and ascend.
#[verifier::external_body]
fn sort_sizes(sizes: &mut Vec<u64>)
    ensures
        final(sizes)@.len() == old(sizes)@.len(),
        final(sizes)@.to_multiset() == old(sizes)@.to_multiset(),
        ascending(final(sizes)@),
{
    sizes.sort_unstable()
}

/// The number at the place `k` from the end of `sizes`, counted from one;
/// one where `sizes` is shorter.
pub open spec fn from_end(sizes: Seq<u64>, k: int) -> nat {
    if sizes.len() >= k {
        sizes[sizes.len() - k] as nat
    } else {
        1
    }
}

/// Whether `sizes` are, in ascending order, the sizes of the circuits
/// after the first `connections` of `edges` are made between `nodes`.
pub open spec fn sizes_after(nodes: Seq<IVec3>, edges: Seq<Edge>, connections: u64, sizes: Seq<u64>) -> bool {
    let made = CircuitsModel::new(nodes.len()).connect_all(edges, connections as int);
    &&& candidates_of(nodes, edges)
    &&& connections <= edges.len()
    &&& ascending(sizes)
    &&& sizes.to_multiset() == sizes_of(made.members, made.members.len() as int).to_multiset()
}

/// The sizes of the three largest circuits multiplied; a size that is
/// wanting counts as one.
pub open spec fn top_three(sizes: Seq<u64>) -> nat {
    from_end(sizes, 1) * from_end(sizes, 2) * from_end(sizes, 3)
}

/// Whether `r` is what making the `connections` shortest connections
/// between `nodes` gives, for some order of the connections of one length:
/// the product of the sizes of the three largest circuits. Distances and
/// products beyond 64-bit numbers are refused, and so are more connections
/// than there are pairs of boxes.
pub open spec fn outcome_a(nodes: Seq<IVec3>, connections: u64, r: Result<u64, PuzzleError>) -> bool {
    if !measured(nodes) {
        r == Err::<u64, PuzzleError>(PuzzleError::Overflow)
    } else if connections > pair_count(nodes.len()) {
        r == Err::<u64, PuzzleError>(PuzzleError::NotEnoughEdges)
    } else {
        exists|edges: Seq<Edge>, sizes: Seq<u64>| #[trigger]
            sizes_after(nodes, edges, connections, sizes) && r == (if top_three(sizes) <= u64::MAX {
                Ok::<u64, PuzzleError>(top_three(sizes) as u64)
            } else {
                Err::<u64, PuzzleError>(PuzzleError::Overflow)
            })
    }
}

proof fn lemma_connect_all_wf(model: CircuitsModel, nodes: Seq<IVec3>, edges: Seq<Edge>, upto: int)
    requires
        model.wf(),
        model.index.len() == nodes.len(),
        0 <= upto <= edges.len(),
        forall|k: int| 0 <= k < edges.len() ==> joins(nodes, #[trigger] edges[k]),
    ensures
        model.connect_all(edges, upto).wf(),
        model.connect_all(edges, upto).index.len() == nodes.len(),
    decreases upto,
{
    if upto > 0 {
        lemma_connect_all_wf(model, nodes, edges, upto - 1);
        let before = model.connect_all(edges, upto - 1);
        let edge = edges[upto - 1];
        assert(joins(nodes, edge));
        let dst = before.index[edge.left as int];
        let src = before.index[edge.right as int];
        if dst != src {
            lemma_relabel(before.index, before.members[src as int], dst, before.members[src as int].len() as int);
            let after = before.connect(edge.left, edge.right);
            assert forall|c: int, m: int|
                0 <= c < after.members.len() && 0 <= m < after.members[c].len() implies (
            #[trigger] after.members[c][m]) < after.index.len() by {
                if c == dst {
                    if m < before.members[dst as int].len() {
                        assert(before.members[dst as int][m] < before.index.len());
                    } else {
                        assert(before.members[src as int][m - before.members[dst as int].len()]
                            < before.index.len());
                    }
                } else if c != src {
                    assert(before.members[c][m] < before.index.len());
                }
            }
        }
    }
}

/// Makes the `connections` shortest connections and multiplies the sizes
/// of the three largest circuits.
pub fn a(input: &str, connections: u64) -> (r: Result<u64, PuzzleError>)
    ensures
        match spec_parse(input@) {
            Err(error) => r == Err::<u64, PuzzleError>(error),
            Ok(nodes) => outcome_a(nodes, connections, r),
        },
{
    let nodes = match parse(input) {
        Ok(nodes) => nodes,
        Err(error) => {
            return Err(error);
        },
    };
    let candidates = match Edge::candidates(&nodes) {
        Some(candidates) => candidates,
        None => {
            return Err(PuzzleError::Overflow);
        },
    };
    let mut circuits = Circuits::new(nodes.len());
    let ghost first = CircuitsModel::new(nodes@.len());
    assert(first.wf());
    let mut made: u64 = 0;
    while made < connections
        invariant
            made <= connections,
            made <= candidates@.len(),
            spec_parse(input@) == Ok::<Seq<IVec3>, PuzzleError>(nodes@),
            measured(nodes@),
            candidates_of(nodes@, candidates@),
            first == CircuitsModel::new(nodes@.len()),
            first.wf(),
            circuits.model() == first.connect_all(candidates@, made as int),
            circuits.model().wf(),
            circuits.model().index.len() == nodes@.len(),
        decreases connections - made,
    {
        if made as u128 >= candidates.len() as u128 {
            return Err(PuzzleError::NotEnoughEdges);
        }
        let edge = candidates[made as usize];
        assert(joins(nodes@, edge));
        circuits.connect(edge.left, edge.right);
        made += 1;
    }
    let mut circuit_sizes = circuits.iter();
    let ghost unsorted = circuit_sizes@;
    sort_sizes(&mut circuit_sizes);
    let n = circuit_sizes.len();
    let ghost sizes = circuit_sizes@;
    proof {
        broadcast use vstd::seq_lib::group_to_multiset_ensures;

        assert forall|i: int| 0 <= i < sizes.len() implies #[trigger] sizes[i] >= 1 by {
            assert(sizes.to_multiset().count(sizes[i]) > 0);
            assert(unsorted.contains(sizes[i]));
        }
        assert(sizes_after(nodes@, candidates@, connections, sizes));
    }
    let a: u64 = if n >= 1 {
        circuit_sizes[n - 1]
    } else {
        1
    };
    let b: u64 = if n >= 2 {
        circuit_sizes[n - 2]
    } else {
        1
    };
    let c: u64 = if n >= 3 {
        circuit_sizes[n - 3]
    } else {
        1
    };
    assert(a == from_end(sizes, 1) && b == from_end(sizes, 2) && c == from_end(sizes, 3));
    assert(c >= 1);
    let ab = match a.checked_mul(b) {
        Some(ab) => ab,
        None => {
            assert(a * b * c >= a * b) by (nonlinear_arith)
                requires
                    c >= 1,
            ;
            return Err(PuzzleError::Overflow);
        },
    };
    ab.checked_mul(c).ok_or(PuzzleError::Overflow)
}

/// Whether the connection `last` of `edges`, made after all before it, is
/// the first to leave one circuit only.
pub open spec fn first_single(nodes: Seq<IVec3>, edges: Seq<Edge>, last: int) -> bool {
    let first = CircuitsModel::new(nodes.len());
    &&& candidates_of(nodes, edges)
    &&& 0 <= last < edges.len()
    &&& first.connect_all(edges, last + 1).count == 1
    &&& forall|k: int| 1 <= k <= last ==> (#[trigger] first.connect_all(edges, k)).count != 1
}

/// The product of the first coordinates of the two boxes that the
/// connection `last` of `edges` joins.
pub open spec fn joint(nodes: Seq<IVec3>, edges: Seq<Edge>, last: int) -> int {
    nodes[edges[last].left as int].x * nodes[edges[last].right as int].x
}

/// Whether `r` is what making `edges` one after the other gives: the
/// product of the first coordinates of the two boxes whose connection first
/// leaves one circuit only; or that this product is no 64-bit number; or
/// that no connection leaves one circuit only.
pub open spec fn joined_by(nodes: Seq<IVec3>, edges: Seq<Edge>, r: Result<i64, PuzzleError>) -> bool {
    &&& candidates_of(nodes, edges)
    &&& match r {
        Ok(answer) => exists|last: int| #[trigger]
            first_single(nodes, edges, last) && answer == joint(nodes, edges, last),
        Err(PuzzleError::Overflow) => exists|last: int| #[trigger]
            first_single(nodes, edges, last) && !(i64::MIN <= joint(nodes, edges, last) <= i64::MAX),
        Err(PuzzleError::NotEnoughEdges) => forall|k: int|
            1 <= k <= edges.len() ==> (#[trigger] CircuitsModel::new(nodes.len()).connect_all(edges, k)).count != 1,
        Err(_) => false,
    }
}

/// Whether `r` is what connecting `nodes` from the shortest connection on
/// gives, for some order of the connections of one length. Distances
/// beyond 64-bit numbers are refused.
pub open spec fn outcome_b(nodes: Seq<IVec3>, r: Result<i64, PuzzleError>) -> bool {
    if !measured(nodes) {
        r == Err::<i64, PuzzleError>(PuzzleError::Overflow)
    } else {
        exists|edges: Seq<Edge>| #[trigger] joined_by(nodes, edges, r)
    }
}

/// Makes connections from the shortest on until all boxes are in one
/// circuit, and multiplies the first coordinates of the two boxes that
/// were connected last.
pub fn b(input: &str) -> (r: Result<i64, PuzzleError>)
    ensures
        match spec_parse(input@) {
            Err(error) => r == Err::<i64, PuzzleError>(error),
            Ok(nodes) => outcome_b(nodes, r),
        },
{
    let nodes = match parse(input) {
        Ok(nodes) => nodes,
        Err(error) => {
            return Err(error);
        },
    };
    let candidates = match Edge::candidates(&nodes) {
        Some(candidates) => candidates,
        None => {
            return Err(PuzzleError::Overflow);
        },
    };
    let mut circuits = Circuits::new(nodes.len());
    let ghost first = CircuitsModel::new(nodes@.len());
    assert(first.wf());
    let mut made: usize = 0;
    loop
        invariant
            made <= candidates@.len(),
            spec_parse(input@) == Ok::<Seq<IVec3>, PuzzleError>(nodes@),
            measured(nodes@),
            candidates_of(nodes@, candidates@),
            first == CircuitsModel::new(nodes@.len()),
            circuits.model() == first.connect_all(candidates@, made as int),
            circuits.model().wf(),
            circuits.model().index.len() == nodes@.len(),
            forall|k: int| 1 <= k <= made ==> (#[trigger] first.connect_all(candidates@, k)).count != 1,
        decreases candidates@.len() - made,
    {
        if made >= candidates.len() {
            assert(joined_by(nodes@, candidates@, Err(PuzzleError::NotEnoughEdges)));
            return Err(PuzzleError::NotEnoughEdges);
        }
        let edge = candidates[made];
        assert(joins(nodes@, edge));
        circuits.connect(edge.left, edge.right);
        if circuits.is_single_circuit() {
            let left = nodes[edge.left];
            let right = nodes[edge.right];
            proof {
                let last = made as int;
                assert(first_single(nodes@, candidates@, last));
                assert(left.x * right.x == joint(nodes@, candidates@, last));
            }
            return match left.x.checked_mul(right.x) {
                Some(answer) => {
                    assert(joined_by(nodes@, candidates@, Ok(answer)));
                    Ok(answer)
                },
                None => {
                    assert(joined_by(nodes@, candidates@, Err(PuzzleError::Overflow)));
                    Err(PuzzleError::Overflow)
                },
            };
        }
        made += 1;
    }
}

/// The solvers of both parts; part A makes a thousand connections.
pub fn solution() -> (solution: Solution)
    ensures
        solution.part_a() is Some,
        solution.part_b() is Some,
{
    Solution::new().with_a(|input: &str| -> (r: Result<u64, String>) { shown(a(input, 1000)) }).with_b(
        |input: &str| -> (r: Result<i64, String>) { shown(b(input)) },
    )
}

} // verus!
