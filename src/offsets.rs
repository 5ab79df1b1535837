use vstd::prelude::*;
use crate::error::SerializationError;
use crate::primitives::{be16, be32};

verus! {

/// A pending offset field: the placeholder at byte `at` of its table's body,
/// 16 or 32 bits wide, which is to hold the distance from the start of its
/// table to the start of table `target`.
#[derive(Clone, Copy, Debug, PartialEq, Eq, Structural)]
pub struct OffsetMarker {
    /// Where the placeholder starts within the table's body.
    pub at: usize,
    /// Whether the field is 32 bits wide rather than 16.
    pub wide: bool,
    /// Index of the referenced table in the arena.
    pub target: usize,
}

/// A table in the arena: its fixed-size body, placeholders included, and its
/// offset fields.
#[derive(Debug)]
pub struct TableNode {
    /// The body bytes, offset placeholders included.
    pub body: Vec<u8>,
    /// The offset fields of the body.
    pub markers: Vec<OffsetMarker>,
}

/// The number of bytes of a field.
pub open spec fn width(m: OffsetMarker) -> int {
    if m.wide {
        4
    } else {
        2
    }
}

/// The largest value a field holds.
pub open spec fn limit(m: OffsetMarker) -> int {
    if m.wide {
        0xFFFF_FFFF
    } else {
        0xFFFF
    }
}

/// The bytes of `value` in a field.
pub open spec fn field_bytes(m: OffsetMarker, value: int) -> Seq<u8> {
    if m.wide {
        be32(value as u32)
    } else {
        be16(value as u16)
    }
}

/// Whether every offset field of `node` lies within its body and refers to
/// a table of the arena of `n` tables.
pub open spec fn node_wf(node: TableNode, n: int) -> bool {
    forall|i: int|
        0 <= i < node.markers@.len() ==> {
            &&& (#[trigger] node.markers@[i]).at + width(node.markers@[i]) <= node.body@.len()
            &&& node.markers@[i].target < n
        }
}

/// Whether every table of the arena is well formed.
pub open spec fn arena_wf(nodes: Seq<TableNode>) -> bool {
    forall|v: int| 0 <= v < nodes.len() ==> node_wf(#[trigger] nodes[v], nodes.len() as int)
}

/// `s` with the bytes from `at` on replaced by `b`.
pub open spec fn write_at(s: Seq<u8>, at: int, b: Seq<u8>) -> Seq<u8> {
    s.subrange(0, at) + b + s.subrange(at + b.len(), s.len() as int)
}

/// `body` with its first `k` fields filled in with `values`, in order.
pub open spec fn patched(body: Seq<u8>, markers: Seq<OffsetMarker>, values: Seq<int>, k: nat) -> Seq<u8>
    decreases k,
{
    if k == 0 {
        body
    } else {
        let m = markers[k - 1];
        write_at(patched(body, markers, values, (k - 1) as nat), m.at as int, field_bytes(m, values[k - 1]))
    }
}

/// Whether `order` places distinct tables of an arena of `n`.
pub open spec fn order_wf(order: Seq<usize>, n: int) -> bool {
    &&& forall|k: int| 0 <= k < order.len() ==> #[trigger] order[k] < n
    &&& forall|a: int, b: int| 0 <= a < b < order.len() ==> order[a] != order[b]
}

/// Whether every table that a placed table refers to is placed too.
pub open spec fn order_closed(nodes: Seq<TableNode>, order: Seq<usize>) -> bool {
    forall|k: int, i: int|
        0 <= k < order.len() && 0 <= i < nodes[order[k] as int].markers@.len() ==> order.contains(
            #[trigger] nodes[order[k] as int].markers@[i].target,
        )
}

/// Where the `k`-th placed table starts: the sizes of those before it.
pub open spec fn start_of(nodes: Seq<TableNode>, order: Seq<usize>, k: int) -> int
    decreases k,
{
    if k <= 0 {
        0
    } else {
        start_of(nodes, order, k - 1) + nodes[order[k - 1] as int].body@.len()
    }
}

/// Where table `v` starts in the output.
pub open spec fn addr(nodes: Seq<TableNode>, order: Seq<usize>, v: usize) -> int {
    start_of(nodes, order, order.index_of(v))
}

/// The values of the fields of the `k`-th placed table: each the distance
/// from the table's start to its target's.
pub open spec fn marker_values(nodes: Seq<TableNode>, order: Seq<usize>, k: int) -> Seq<int> {
    nodes[order[k] as int].markers@.map_values(
        |m: OffsetMarker| addr(nodes, order, m.target) - start_of(nodes, order, k),
    )
}

/// Whether every field of every placed table can hold its value: a target
/// placed before the table, or too far after it for the field's width, makes
/// the layout fail.
pub open spec fn resolvable(nodes: Seq<TableNode>, order: Seq<usize>) -> bool {
    forall|k: int, i: int|
        0 <= k < order.len() && 0 <= i < nodes[order[k] as int].markers@.len() ==> {
            let v = #[trigger] marker_values(nodes, order, k)[i];
            0 <= v <= limit(nodes[order[k] as int].markers@[i])
        }
}

/// The output of the first `k` placed tables, their fields filled in.
pub open spec fn laid_out(nodes: Seq<TableNode>, order: Seq<usize>, k: int) -> Seq<u8>
    decreases k,
{
    if k <= 0 {
        Seq::empty()
    } else {
        let node = nodes[order[k - 1] as int];
        laid_out(nodes, order, k - 1) + patched(
            node.body@,
            node.markers@,
            marker_values(nodes, order, k - 1),
            node.markers@.len(),
        )
    }
}


proof fn lemma_start_monotone(nodes: Seq<TableNode>, order: Seq<usize>, a: int, b: int)
    requires
        0 <= a <= b,
    ensures
        start_of(nodes, order, a) <= start_of(nodes, order, b),
    decreases b - a,
{
    if a < b {
        lemma_start_monotone(nodes, order, a, b - 1);
    }
}

proof fn lemma_index_of_distinct(order: Seq<usize>, n: int, m: int)
    requires
        order_wf(order, n),
        0 <= m < order.len(),
    ensures
        order.index_of(order[m]) == m,
{
    let i = order.index_of(order[m]);
    assert(0 <= m < order.len() && order[m] == order[m]);
    assert(0 <= i < order.len() && order[i] == order[m]);
}

fn write_field(buf: &mut Vec<u8>, m: OffsetMarker, value: usize)
    requires
        m.at + width(m) <= old(buf)@.len(),
        value <= limit(m),
    ensures
        final(buf)@ == write_at(old(buf)@, m.at as int, field_bytes(m, value as int)),
{
    let at = m.at;
    let _len = buf.len();
    if m.wide {
        let v = value as u32;
        buf.set(at, (v / 0x100_0000) as u8);
        buf.set(at + 1, ((v / 0x1_0000) % 256) as u8);
        buf.set(at + 2, ((v / 256) % 256) as u8);
        buf.set(at + 3, (v % 256) as u8);
    } else {
        let v = value as u16;
        buf.set(at, (v / 256) as u8);
        buf.set(at + 1, (v % 256) as u8);
    }
    assert(final(buf)@ =~= write_at(old(buf)@, m.at as int, field_bytes(m, value as int)));
}

/// The value of field `i` of the `k`-th placed table, given where each
/// placed table starts; fails where the field cannot hold it.
fn field_value(nodes: &Vec<TableNode>, order: &Vec<usize>, starts: &Vec<usize>, k: usize, i: usize) -> (r: Result<
    usize,
    SerializationError,
>)
    requires
        arena_wf(nodes@),
        order_wf(order@, nodes@.len() as int),
        order_closed(nodes@, order@),
        starts@.len() == nodes@.len(),
        k < order@.len(),
        i < nodes@[order@[k as int] as int].markers@.len(),
        forall|m: int| 0 <= m < order@.len() ==> starts@[#[trigger] order@[m] as int] == start_of(nodes@, order@, m),
    ensures
        ({
            let v = marker_values(nodes@, order@, k as int)[i as int];
            let lim = limit(nodes@[order@[k as int] as int].markers@[i as int]);
            &&& r is Ok <==> 0 <= v <= lim
            &&& r is Ok ==> r->Ok_0 == v
            &&& r is Err ==> r == Err::<usize, SerializationError>(SerializationError::WidthOverflow)
        }),
{
    let n = nodes.len();
    let here = starts[order[k]];
    let m = nodes[order[k]].markers[i];
    assert(order@.contains(nodes@[order@[k as int] as int].markers@[i as int].target));
    let ghost p = order@.index_of(m.target);
    proof {
        lemma_index_of_distinct(order@, n as int, p);
        lemma_index_of_distinct(order@, n as int, k as int);
    }
    assert(node_wf(nodes@[order@[k as int] as int], n as int));
    let there = starts[m.target];
    assert(there == addr(nodes@, order@, m.target));
    let lim: usize = if m.wide { 0xFFFF_FFFF } else { 0xFFFF };
    if there < here || there - here > lim {
        return Err(SerializationError::WidthOverflow);
    }
    Ok(there - here)
}

/// The body of the `k`-th placed table with its fields filled in, given
/// where each placed table starts.
#[verifier::spinoff_prover]
#[verifier::rlimit(50)]
fn patch_node(nodes: &Vec<TableNode>, order: &Vec<usize>, starts: &Vec<usize>, k: usize) -> (r: Result<
    Vec<u8>,
    SerializationError,
>)
    requires
        arena_wf(nodes@),
        order_wf(order@, nodes@.len() as int),
        order_closed(nodes@, order@),
        starts@.len() == nodes@.len(),
        k < order@.len(),
        forall|m: int| 0 <= m < order@.len() ==> starts@[#[trigger] order@[m] as int] == start_of(nodes@, order@, m),
    ensures
        r is Ok <==> forall|i: int|
            0 <= i < nodes@[order@[k as int] as int].markers@.len() ==> {
                let v = #[trigger] marker_values(nodes@, order@, k as int)[i];
                0 <= v <= limit(nodes@[order@[k as int] as int].markers@[i])
            },
        r is Ok ==> r->Ok_0@ == patched(
            nodes@[order@[k as int] as int].body@,
            nodes@[order@[k as int] as int].markers@,
            marker_values(nodes@, order@, k as int),
            nodes@[order@[k as int] as int].markers@.len(),
        ),
        r is Err ==> r == Err::<Vec<u8>, SerializationError>(SerializationError::WidthOverflow),
{
    let n = nodes.len();
    let node = &nodes[order[k]];
    let ghost mv = marker_values(nodes@, order@, k as int);
    assert(node_wf(nodes@[order@[k as int] as int], n as int));
    let mut buf: Vec<u8> = Vec::new();
    let mut j: usize = 0;
    while j < node.body.len()
        invariant
            j <= node.body@.len(),
            buf@ == node.body@.take(j as int),
        decreases node.body@.len() - j,
    {
        buf.push(node.body[j]);
        j = j + 1;
    }
    assert(buf@ =~= node.body@);
    let mut i: usize = 0;
    while i < node.markers.len()
        invariant
            n == nodes@.len(),
            arena_wf(nodes@),
            order_wf(order@, n as int),
            order_closed(nodes@, order@),
            starts@.len() == n,
            k < order@.len(),
            *node == nodes@[order@[k as int] as int],
            node_wf(*node, n as int),
            mv == marker_values(nodes@, order@, k as int),
            forall|m: int| 0 <= m < order@.len() ==> starts@[#[trigger] order@[m] as int] == start_of(nodes@, order@, m),
            i <= node.markers@.len(),
            buf@ == patched(node.body@, node.markers@, mv, i as nat),
            buf@.len() == node.body@.len(),
            forall|b: int| 0 <= b < i ==> 0 <= #[trigger] mv[b] <= limit(node.markers@[b]),
        decreases node.markers@.len() - i,
    {
        let m = node.markers[i];
        let value = match field_value(nodes, order, starts, k, i) {
            Ok(v) => v,
            Err(e) => {
                return Err(e);
            },
        };
        write_field(&mut buf, m, value);
        i = i + 1;
    }
    Ok(buf)
}

/// Lays the tables out one after the other in `order`, each offset field
/// filled in with the distance from its table's start to its target's.
///
/// Fails with `WidthOverflow` where a field cannot hold its value (the
/// target lies before its table, or further than the field's width
/// reaches), or where the output would not fit in memory.
#[verifier::spinoff_prover]
pub fn lay_out(nodes: &Vec<TableNode>, order: &Vec<usize>) -> (r: Result<Vec<u8>, SerializationError>)
    requires
        arena_wf(nodes@),
        order_wf(order@, nodes@.len() as int),
        order_closed(nodes@, order@),
    ensures
        r is Ok <==> start_of(nodes@, order@, order@.len() as int) <= usize::MAX && resolvable(
            nodes@,
            order@,
        ),
        r is Ok ==> r->Ok_0@ == laid_out(nodes@, order@, order@.len() as int),
        r is Err ==> r == Err::<Vec<u8>, SerializationError>(SerializationError::WidthOverflow),
{
    let n = nodes.len();
    let mut starts: Vec<usize> = Vec::new();
    let mut v: usize = 0;
    while v < n
        invariant
            v <= n,
            starts@.len() == v,
        decreases n - v,
    {
        starts.push(0);
        v = v + 1;
    }
    let mut total: usize = 0;
    let mut k: usize = 0;
    while k < order.len()
        invariant
            n == nodes@.len(),
            order_wf(order@, n as int),
            starts@.len() == n,
            k <= order@.len(),
            total == start_of(nodes@, order@, k as int),
            forall|m: int| 0 <= m < k ==> starts@[#[trigger] order@[m] as int] == start_of(nodes@, order@, m),
        decreases order@.len() - k,
    {
        let len = nodes[order[k]].body.len();
        if len > usize::MAX - total {
            proof {
                lemma_start_monotone(nodes@, order@, k + 1, order@.len() as int);
            }
            return Err(SerializationError::WidthOverflow);
        }
        starts.set(order[k], total);
        total = total + len;
        k = k + 1;
    }
    let mut out: Vec<u8> = Vec::new();
    let mut k: usize = 0;
    while k < order.len()
        invariant
            n == nodes@.len(),
            arena_wf(nodes@),
            order_wf(order@, n as int),
            order_closed(nodes@, order@),
            starts@.len() == n,
            k <= order@.len(),
            total == start_of(nodes@, order@, order@.len() as int),
            forall|m: int| 0 <= m < order@.len() ==> starts@[#[trigger] order@[m] as int] == start_of(nodes@, order@, m),
            out@ == laid_out(nodes@, order@, k as int),
            forall|a: int, i: int|
                0 <= a < k && 0 <= i < nodes@[order@[a] as int].markers@.len() ==> {
                    let v = #[trigger] marker_values(nodes@, order@, a)[i];
                    0 <= v <= limit(nodes@[order@[a] as int].markers@[i])
                },
        decreases order@.len() - k,
    {
        let mut buf = match patch_node(nodes, order, &starts, k) {
            Ok(b) => b,
            Err(e) => {
                return Err(e);
            },
        };
        out.append(&mut buf);
        k = k + 1;
    }
    Ok(out)
}


/// Every offset value of a successful layout fits its field: a 16-bit field
/// never holds a value of 65536 or more, so no value is ever truncated.
pub proof fn lemma_resolved_values_fit(nodes: Seq<TableNode>, order: Seq<usize>, k: int, i: int)
    requires
        resolvable(nodes, order),
        0 <= k < order.len(),
        0 <= i < nodes[order[k] as int].markers@.len(),
    ensures
        0 <= marker_values(nodes, order, k)[i],
        !nodes[order[k] as int].markers@[i].wide ==> marker_values(nodes, order, k)[i] < 0x1_0000,
        marker_values(nodes, order, k)[i] < 0x1_0000_0000,
{
    let v = marker_values(nodes, order, k)[i];
    assert(0 <= v <= limit(nodes[order[k] as int].markers@[i]));
}

/// Whether table `u` refers to table `t`.
pub open spec fn is_edge(nodes: Seq<TableNode>, u: int, t: int) -> bool {
    0 <= u < nodes.len() && exists|i: int|
        0 <= i < nodes[u].markers@.len() && nodes[u].markers@[i].target == t
}

/// Whether `p` is a walk through the graph: each table refers to the next.
pub open spec fn is_walk(nodes: Seq<TableNode>, p: Seq<usize>) -> bool {
    &&& p.len() >= 1
    &&& forall|k: int| 0 <= k < p.len() - 1 ==> #[trigger] is_edge(nodes, p[k] as int, p[k + 1] as int)
}

/// Whether `p` is a walk from `root` that ends at a table it passed before.
pub open spec fn cycle_walk(nodes: Seq<TableNode>, root: usize, p: Seq<usize>) -> bool {
    &&& is_walk(nodes, p)
    &&& p[0] == root
    &&& exists|k: int| 0 <= k < p.len() - 1 && p[k] == p.last()
}

/// Whether some table reachable from `root` reaches itself again.
pub open spec fn reaches_cycle(nodes: Seq<TableNode>, root: usize) -> bool {
    exists|p: Seq<usize>| #[trigger] cycle_walk(nodes, root, p)
}

/// Whether table `u` is done: visited and off the current path.
pub open spec fn finished(on_path: Seq<bool>, visited: Seq<bool>, u: int) -> bool {
    visited[u] && !on_path[u]
}

/// Whether every target of table `u` was done before `u`.
pub open spec fn settled(nodes: Seq<TableNode>, on_path: Seq<bool>, visited: Seq<bool>, fin: Seq<usize>, u: int) -> bool {
    forall|i: int|
        0 <= i < nodes[u].markers@.len() ==> {
            let t = #[trigger] nodes[u].markers@[i].target as int;
            finished(on_path, visited, t) && fin[t] < fin[u]
        }
}

/// The bookkeeping of a traversal from `root`: `order` lists the visited
/// tables, each once; `stack` is the current path, a walk from `root`, and
/// holds exactly the tables marked on the path; every done table has a rank
/// in `fin` below `clock`, above the ranks of all its targets, which are
/// done too.
pub open spec fn walk_inv(
    nodes: Seq<TableNode>,
    root: usize,
    on_path: Seq<bool>,
    visited: Seq<bool>,
    order: Seq<usize>,
    stack: Seq<usize>,
    fin: Seq<usize>,
    clock: usize,
) -> bool {
    let n = nodes.len() as int;
    &&& on_path.len() == n
    &&& visited.len() == n
    &&& fin.len() == n
    &&& order_wf(order, n)
    &&& clock + stack.len() <= order.len()
    &&& forall|u: int| 0 <= u < n ==> (#[trigger] visited[u] <==> order.contains(u as usize))
    &&& forall|u: int| 0 <= u < n ==> (#[trigger] on_path[u] <==> stack.contains(u as usize))
    &&& forall|u: int| 0 <= u < n ==> (#[trigger] on_path[u] ==> visited[u])
    &&& forall|k: int| 0 <= k < stack.len() ==> #[trigger] stack[k] < n
    &&& (stack.len() == 0 || (stack[0] == root && is_walk(nodes, stack)))
    &&& forall|u: int| 0 <= u < n && #[trigger] finished(on_path, visited, u) ==> fin[u] < clock && settled(
        nodes,
        on_path,
        visited,
        fin,
        u,
    )
}

proof fn lemma_distinct_bound(s: Seq<usize>, n: int)
    requires
        n >= 0,
        order_wf(s, n),
    ensures
        s.len() <= n,
    decreases n,
{
    if n <= 0 {
        if s.len() > 0 {
            assert(s[0] < n);
        }
    } else if s.contains((n - 1) as usize) {
        let idx = choose|idx: int| 0 <= idx < s.len() && s[idx] == (n - 1) as usize;
        let t = s.remove(idx);
        assert forall|k: int| 0 <= k < t.len() implies #[trigger] t[k] < n - 1 by {
            if k < idx {
                assert(t[k] == s[k]);
            } else {
                assert(t[k] == s[k + 1]);
            }
        }
        assert forall|a: int, b: int| 0 <= a < b < t.len() implies t[a] != t[b] by {
            let a2 = if a < idx { a } else { a + 1 };
            let b2 = if b < idx { b } else { b + 1 };
            assert(t[a] == s[a2] && t[b] == s[b2]);
        }
        lemma_distinct_bound(t, n - 1);
        assert(t.len() == s.len() - 1);
    } else {
        assert forall|k: int| 0 <= k < s.len() implies #[trigger] s[k] < n - 1 by {
            assert(s[k] != (n - 1) as usize);
        }
        lemma_distinct_bound(s, n - 1);
    }
}

proof fn lemma_room_left(order: Seq<usize>, n: int, v: usize)
    requires
        order_wf(order, n),
        v < n,
        !order.contains(v),
    ensures
        order.len() < n,
{
    let s = order.push(v);
    assert forall|a: int, b: int| 0 <= a < b < s.len() implies s[a] != s[b] by {
        if b == order.len() {
            assert(order.contains(s[a]));
        }
    }
    assert forall|k: int| 0 <= k < s.len() implies #[trigger] s[k] < n by {
        if k < order.len() {
            assert(s[k] == order[k]);
        }
    }
    lemma_distinct_bound(s, n);
}

#[verifier::rlimit(100)]
#[verifier::spinoff_prover]
fn visit(
    nodes: &Vec<TableNode>,
    root: usize,
    v: usize,
    on_path: &mut Vec<bool>,
    visited: &mut Vec<bool>,
    order: &mut Vec<usize>,
    stack: &mut Vec<usize>,
    fin: &mut Vec<usize>,
    clock: &mut usize,
) -> (r: Result<(), SerializationError>)
    requires
        arena_wf(nodes@),
        v < nodes@.len(),
        walk_inv(nodes@, root, old(on_path)@, old(visited)@, old(order)@, old(stack)@, old(fin)@, *old(clock)),
        !old(visited)@[v as int],
        (old(stack)@.len() == 0 && v == root) || (old(stack)@.len() > 0 && is_edge(
            nodes@,
            old(stack)@.last() as int,
            v as int,
        )),
    ensures
        r is Ok ==> walk_inv(nodes@, root, final(on_path)@, final(visited)@, final(order)@, final(stack)@, final(fin)@, *final(clock)),
        r is Ok ==> final(on_path)@ == old(on_path)@ && final(stack)@ == old(stack)@,
        r is Ok ==> final(visited)@[v as int],
        r is Ok ==> forall|u: int|
            0 <= u < nodes@.len() && #[trigger] old(visited)@[u] ==> final(visited)@[u],
        r is Ok ==> forall|u: int|
            0 <= u < nodes@.len() && #[trigger] finished(old(on_path)@, old(visited)@, u) ==> final(fin)@[u]
                == old(fin)@[u],
        r is Ok ==> old(order)@.len() < final(order)@.len() && final(order)@[old(order)@.len() as int] == v,
        r is Ok ==> final(order)@.take(old(order)@.len() as int) == old(order)@,
        r is Err ==> r == Err::<(), SerializationError>(SerializationError::CyclicGraph) && reaches_cycle(
            nodes@,
            root,
        ),
    decreases nodes@.len() - old(order)@.len(),
{
    let n = nodes.len();
    proof {
        lemma_room_left(order@, n as int, v);
    }
    let ghost order0 = order@;
    let ghost visited0 = visited@;
    let ghost path0 = on_path@;
    let ghost stack0 = stack@;
    let ghost fin0 = fin@;
    order.push(v);
    visited.set(v, true);
    on_path.set(v, true);
    stack.push(v);
    proof {
        assert(order@.contains(v)) by {
            assert(order@[order0.len() as int] == v);
        }
        assert forall|u: int| 0 <= u < n implies (#[trigger] visited@[u] <==> order@.contains(u as usize)) by {
            if u != v {
                if order0.contains(u as usize) {
                    let k = choose|k: int| 0 <= k < order0.len() && order0[k] == u as usize;
                    assert(order@[k] == u as usize);
                }
                if order@.contains(u as usize) {
                    let k = choose|k: int| 0 <= k < order@.len() && order@[k] == u as usize;
                    assert(order0[k] == u as usize);
                }
            }
        }
        assert forall|u: int| 0 <= u < n implies (#[trigger] on_path@[u] <==> stack@.contains(u as usize)) by {
            if u != v {
                if stack0.contains(u as usize) {
                    let k = choose|k: int| 0 <= k < stack0.len() && stack0[k] == u as usize;
                    assert(stack@[k] == u as usize);
                }
                if stack@.contains(u as usize) {
                    let k = choose|k: int| 0 <= k < stack@.len() && stack@[k] == u as usize;
                    assert(stack0[k] == u as usize);
                }
            } else {
                assert(stack@[stack0.len() as int] == v);
            }
        }
        assert(order_wf(order@, n as int)) by {
            assert forall|a: int, b: int| 0 <= a < b < order@.len() implies order@[a] != order@[b] by {
                if b == order0.len() {
                    assert(order0.contains(order@[a]));
                }
            }
        }
        assert(stack@[0] == root && is_walk(nodes@, stack@)) by {
            if stack0.len() > 0 {
                assert(stack@[0] == stack0[0]);
                assert forall|k: int| 0 <= k < stack@.len() - 1 implies #[trigger] is_edge(nodes@, stack@[k] as int, stack@[k + 1] as int) by {
                    if k < stack0.len() - 1 {
                        assert(stack@[k] == stack0[k] && stack@[k + 1] == stack0[k + 1]);
                        assert(is_edge(nodes@, stack0[k] as int, stack0[k + 1] as int));
                    }
                }
            }
        }
        assert forall|u: int| 0 <= u < n && #[trigger] finished(on_path@, visited@, u) implies fin@[u] < *clock && settled(nodes@, on_path@, visited@, fin@, u) by {
            assert(u != v);
            assert(finished(path0, visited0, u));
            assert(settled(nodes@, path0, visited0, fin0, u));
            assert forall|i: int| 0 <= i < nodes@[u].markers@.len() implies {
                let t = #[trigger] nodes@[u].markers@[i].target as int;
                finished(on_path@, visited@, t) && fin@[t] < fin@[u]
            } by {
                let t = nodes@[u].markers@[i].target as int;
                assert(finished(path0, visited0, t));
            }
        }
    }
    let node = &nodes[v];
    let mut i: usize = 0;
    while i < node.markers.len()
        invariant
            arena_wf(nodes@),
            n == nodes@.len(),
            v < n,
            *node == nodes@[v as int],
            node_wf(*node, n as int),
            i <= node.markers@.len(),
            walk_inv(nodes@, root, on_path@, visited@, order@, stack@, fin@, *clock),
            on_path@ == path0.update(v as int, true),
            stack@ == stack0.push(v),
            visited@[v as int],
            forall|u: int| 0 <= u < n && #[trigger] visited0[u] ==> visited@[u],
            forall|u: int| 0 <= u < n && #[trigger] finished(path0, visited0, u) ==> fin@[u] == fin0[u],
            order0 == old(order)@,
            !visited0[v as int],
            path0.len() == n,
            visited0.len() == n,
            order0.len() < order@.len(),
            order@[order0.len() as int] == v,
            order@.take(order0.len() as int) == order0,
            forall|j: int| 0 <= j < i ==> finished(on_path@, visited@, #[trigger] node.markers@[j].target as int),
        decreases node.markers@.len() - i,
    {
        let t = node.markers[i].target;
        proof {
            assert(is_edge(nodes@, v as int, t as int)) by {
                assert(nodes@[v as int].markers@[i as int].target == t);
            }
        }
        if on_path[t] {
            proof {
                assert(stack@.contains(t));
                let k = choose|k: int| 0 <= k < stack@.len() && stack@[k] == t;
                let p = stack@.push(t);
                assert forall|q: int| 0 <= q < p.len() - 1 implies #[trigger] is_edge(nodes@, p[q] as int, p[q + 1] as int) by {
                    if q < stack@.len() - 1 {
                        assert(p[q] == stack@[q] && p[q + 1] == stack@[q + 1]);
                        assert(is_edge(nodes@, stack@[q] as int, stack@[q + 1] as int));
                    } else {
                        assert(p[q] == v && p[q + 1] == t);
                    }
                }
                assert(p[k] == p.last());
                assert(cycle_walk(nodes@, root, p));
            }
            return Err(SerializationError::CyclicGraph);
        }
        if !visited[t] {
            let ghost before_visited = visited@;
            let ghost before_order = order@;
            let ghost before_path = on_path@;
            let ghost before_fin = fin@;
            proof {
                lemma_distinct_bound(order@, n as int);
            }
            match visit(nodes, root, t, on_path, visited, order, stack, fin, clock) {
                Ok(()) => {},
                Err(e) => {
                    return Err(e);
                },
            }
            proof {
                assert(order@.take(order0.len() as int) =~= order0) by {
                    assert forall|x: int| 0 <= x < order0.len() implies order@[x] == order0[x] by {
                        assert(order@.take(before_order.len() as int)[x] == before_order[x]);
                        assert(before_order.take(order0.len() as int)[x] == order0[x]);
                    }
                }
                assert(order@[order0.len() as int] == v) by {
                    assert(order@.take(before_order.len() as int)[order0.len() as int] == before_order[order0.len() as int]);
                }
                assert forall|j: int| 0 <= j < i implies finished(on_path@, visited@, #[trigger] node.markers@[j].target as int) by {
                    let tj = node.markers@[j].target as int;
                    assert(finished(before_path, before_visited, tj));
                }
                assert forall|u: int| 0 <= u < n && #[trigger] finished(path0, visited0, u) implies fin@[u] == fin0[u] by {
                    assert(before_fin[u] == fin0[u]);
                    assert(u != v);
                    assert(before_path[u] == path0[u]);
                    assert(finished(before_path, before_visited, u));
                }
                assert forall|u: int| 0 <= u < n && #[trigger] visited0[u] implies visited@[u] by {
                    assert(before_visited[u]);
                }
                assert(finished(on_path@, visited@, t as int));
            }
        } else {
            proof {
                assert(finished(on_path@, visited@, t as int));
            }
        }
        i = i + 1;
    }
    let ghost fin1 = fin@;
    let ghost path1 = on_path@;
    let ghost visited1 = visited@;
    let ghost clock1 = *clock;
    proof {
        assert(finished(path0, visited0, v as int) == false);
        assert(*clock < order@.len());
    }
    let placed = order.len();
    assert(*clock < placed);
    fin.set(v, *clock);
    *clock = *clock + 1;
    on_path.set(v, false);
    stack.pop();
    proof {
        assert(on_path@ =~= path0);
        assert(stack@ =~= stack0);
        assert forall|u: int| 0 <= u < n && #[trigger] finished(on_path@, visited@, u) implies fin@[u] < *clock && settled(nodes@, on_path@, visited@, fin@, u) by {
            if u == v {
                assert forall|j: int| 0 <= j < nodes@[u].markers@.len() implies {
                    let tj = #[trigger] nodes@[u].markers@[j].target as int;
                    finished(on_path@, visited@, tj) && fin@[tj] < fin@[u]
                } by {
                    let tj = nodes@[u].markers@[j].target as int;
                    assert(node.markers@[j].target as int == tj);
                    assert(finished(path1, visited1, tj));
                    assert(tj != v);
                    assert(fin1[tj] < clock1);
                }
            } else {
                assert(finished(path1, visited1, u));
                assert(settled(nodes@, path1, visited1, fin1, u));
                assert forall|j: int| 0 <= j < nodes@[u].markers@.len() implies {
                    let tj = #[trigger] nodes@[u].markers@[j].target as int;
                    finished(on_path@, visited@, tj) && fin@[tj] < fin@[u]
                } by {
                    let tj = nodes@[u].markers@[j].target as int;
                    assert(finished(path1, visited1, tj));
                    assert(tj != v);
                }
            }
        }
        assert forall|u: int| 0 <= u < n && #[trigger] finished(path0, visited0, u) implies fin@[u] == fin0[u] by {
            assert(u != v);
        }
        assert forall|k: int| 0 <= k < stack@.len() implies #[trigger] stack@[k] < n by {
            assert(stack@[k] == stack0[k]);
        }
    }
    Ok(())
}

proof fn lemma_walk_descends(
    nodes: Seq<TableNode>,
    on_path: Seq<bool>,
    visited: Seq<bool>,
    fin: Seq<usize>,
    p: Seq<usize>,
    a: int,
    b: int,
)
    requires
        is_walk(nodes, p),
        0 <= a < b < p.len(),
        0 <= p[a] < nodes.len(),
        on_path.len() == nodes.len(),
        visited.len() == nodes.len(),
        arena_wf(nodes),
        finished(on_path, visited, p[a] as int),
        forall|u: int| 0 <= u < nodes.len() && #[trigger] finished(on_path, visited, u) ==> settled(nodes, on_path, visited, fin, u),
    ensures
        p[b] < nodes.len(),
        finished(on_path, visited, p[b] as int),
        fin[p[b] as int] < fin[p[a] as int],
    decreases b - a,
{
    let c = b - 1;
    if c > a {
        lemma_walk_descends(nodes, on_path, visited, fin, p, a, c);
    }
    assert(is_edge(nodes, p[c] as int, p[c + 1] as int));
    let u = p[c] as int;
    let i = choose|i: int| 0 <= i < nodes[u].markers@.len() && nodes[u].markers@[i].target == p[c + 1];
    assert(node_wf(nodes[u], nodes.len() as int));
    assert(settled(nodes, on_path, visited, fin, u));
    let t = nodes[u].markers@[i].target as int;
    assert(finished(on_path, visited, t) && fin[t] < fin[u]);
}

/// The order in which the tables reachable from `root` are laid out: a
/// depth-first pre-order, each table once, a table's own bytes before its
/// children's. Fails with `CyclicGraph` exactly when a table reachable
/// from `root` reaches itself again.
pub fn placement_order(nodes: &Vec<TableNode>, root: usize) -> (r: Result<Vec<usize>, SerializationError>)
    requires
        arena_wf(nodes@),
        root < nodes@.len(),
    ensures
        r is Err <==> reaches_cycle(nodes@, root),
        r is Err ==> r == Err::<Vec<usize>, SerializationError>(SerializationError::CyclicGraph),
        r is Ok ==> order_wf(r->Ok_0@, nodes@.len() as int) && order_closed(nodes@, r->Ok_0@),
        r is Ok ==> r->Ok_0@.len() >= 1 && r->Ok_0@[0] == root,
{
    let n = nodes.len();
    let mut on_path: Vec<bool> = Vec::new();
    let mut visited: Vec<bool> = Vec::new();
    let mut fin: Vec<usize> = Vec::new();
    let mut u: usize = 0;
    while u < n
        invariant
            u <= n,
            on_path@.len() == u,
            visited@.len() == u,
            fin@.len() == u,
            forall|w: int| 0 <= w < u ==> !(#[trigger] on_path@[w]) && !visited@[w],
        decreases n - u,
    {
        on_path.push(false);
        visited.push(false);
        fin.push(0);
        u = u + 1;
    }
    let mut order: Vec<usize> = Vec::new();
    let mut stack: Vec<usize> = Vec::new();
    let mut clock: usize = 0;
    proof {
        assert forall|w: int| 0 <= w < n implies (#[trigger] visited@[w] <==> order@.contains(w as usize)) by {
            assert(!on_path@[w]);
            assert(!order@.contains(w as usize));
        }
        assert forall|w: int| 0 <= w < n implies (#[trigger] on_path@[w] <==> stack@.contains(w as usize)) by {
            assert(!stack@.contains(w as usize));
        }
        assert forall|w: int| 0 <= w < n && #[trigger] finished(on_path@, visited@, w) implies fin@[w] < clock && settled(nodes@, on_path@, visited@, fin@, w) by {
            assert(!on_path@[w]);
        }
    }
    match visit(nodes, root, root, &mut on_path, &mut visited, &mut order, &mut stack, &mut fin, &mut clock) {
        Ok(()) => {},
        Err(e) => {
            return Err(e);
        },
    }
    proof {
        assert forall|w: int| 0 <= w < n implies !(#[trigger] on_path@[w]) by {
            assert(!stack@.contains(w as usize));
        }
        assert forall|k: int, i: int|
            0 <= k < order@.len() && 0 <= i < nodes@[order@[k] as int].markers@.len() implies order@.contains(
                #[trigger] nodes@[order@[k] as int].markers@[i].target,
            ) by {
            let w = order@[k] as int;
            assert(order@.contains(order@[k]));
            assert(visited@[w]);
            assert(finished(on_path@, visited@, w));
            assert(settled(nodes@, on_path@, visited@, fin@, w));
            assert(node_wf(nodes@[w], n as int));
            let t = nodes@[w].markers@[i].target as int;
            assert(finished(on_path@, visited@, t));
        }
        if reaches_cycle(nodes@, root) {
            let p = choose|p: Seq<usize>| #[trigger] cycle_walk(nodes@, root, p);
            let k = choose|k: int| 0 <= k < p.len() - 1 && p[k] == p.last();
            assert(order@.contains(root)) by {
                assert(order@[0] == root);
            }
            assert(finished(on_path@, visited@, root as int));
            if k > 0 {
                lemma_walk_descends(nodes@, on_path@, visited@, fin@, p, 0, k);
            }
            lemma_walk_descends(nodes@, on_path@, visited@, fin@, p, k, p.len() - 1);
        }
    }
    Ok(order)
}

/// Lays out the tables reachable from `root` as one byte stream: placed in
/// depth-first pre-order, then every offset field filled in with the
/// distance from its table's start to its target's.
pub fn resolve(nodes: &Vec<TableNode>, root: usize) -> (r: Result<Vec<u8>, SerializationError>)
    requires
        arena_wf(nodes@),
        root < nodes@.len(),
    ensures
        r == Err::<Vec<u8>, SerializationError>(SerializationError::CyclicGraph) <==> reaches_cycle(
            nodes@,
            root,
        ),
        r is Err ==> r == Err::<Vec<u8>, SerializationError>(SerializationError::CyclicGraph) || r
            == Err::<Vec<u8>, SerializationError>(SerializationError::WidthOverflow),
        r == Err::<Vec<u8>, SerializationError>(SerializationError::WidthOverflow) ==> exists|
            order: Seq<usize>,
        |
            order_wf(order, nodes@.len() as int) && order_closed(nodes@, order) && order.len() >= 1
                && order[0] == root && !(start_of(nodes@, order, order.len() as int) <= usize::MAX
                && resolvable(nodes@, order)),
        r is Ok ==> exists|order: Seq<usize>|
            order_wf(order, nodes@.len() as int) && order_closed(nodes@, order) && order.len() >= 1
                && order[0] == root && resolvable(nodes@, order) && r->Ok_0@ == laid_out(
                nodes@,
                order,
                order.len() as int,
            ),
{
    let order = match placement_order(nodes, root) {
        Ok(o) => o,
        Err(e) => {
            return Err(e);
        },
    };
    lay_out(nodes, &order)
}

} // verus!

verus! {

proof fn lemma_patched_len(body: Seq<u8>, markers: Seq<OffsetMarker>, values: Seq<int>, k: nat)
    requires
        k <= markers.len(),
        forall|j: int| 0 <= j < k ==> (#[trigger] markers[j]).at + width(markers[j]) <= body.len(),
    ensures
        patched(body, markers, values, k).len() == body.len(),
    decreases k,
{
    if k > 0 {
        lemma_patched_len(body, markers, values, (k - 1) as nat);
        let m = markers[k - 1];
        assert(field_bytes(m, values[k - 1]).len() == width(m));
    }
}

/// Filling in fields leaves every byte outside them as it was.
pub proof fn lemma_patched_keeps(body: Seq<u8>, markers: Seq<OffsetMarker>, values: Seq<int>, k: nat, p: int)
    requires
        k <= markers.len(),
        forall|j: int| 0 <= j < k ==> (#[trigger] markers[j]).at + width(markers[j]) <= body.len(),
        0 <= p < body.len(),
        forall|j: int| 0 <= j < k ==> !((#[trigger] markers[j]).at <= p < markers[j].at + width(markers[j])),
    ensures
        patched(body, markers, values, k)[p] == body[p],
    decreases k,
{
    if k > 0 {
        lemma_patched_keeps(body, markers, values, (k - 1) as nat, p);
        lemma_patched_len(body, markers, values, (k - 1) as nat);
        let m = markers[k - 1];
        assert(field_bytes(m, values[k - 1]).len() == width(m));
    }
}

proof fn lemma_laid_out_prefix(nodes: Seq<TableNode>, order: Seq<usize>, k: int, big: int)
    requires
        0 <= k <= big,
    ensures
        laid_out(nodes, order, k).len() <= laid_out(nodes, order, big).len(),
        laid_out(nodes, order, big).subrange(0, laid_out(nodes, order, k).len() as int) == laid_out(
            nodes,
            order,
            k,
        ),
    decreases big - k,
{
    if k < big {
        lemma_laid_out_prefix(nodes, order, k, big - 1);
        let a = laid_out(nodes, order, k);
        let b = laid_out(nodes, order, big - 1);
        let c = laid_out(nodes, order, big);
        assert(c.subrange(0, a.len() as int) =~= b.subrange(0, a.len() as int));
    } else {
        assert(laid_out(nodes, order, big).subrange(0, laid_out(nodes, order, k).len() as int) =~= laid_out(nodes, order, k));
    }
}

/// The output of a layout starts with the first placed table, its fields
/// filled in and every other byte of its body as it was.
pub proof fn lemma_laid_out_starts_with_root(nodes: Seq<TableNode>, order: Seq<usize>, p: int)
    requires
        arena_wf(nodes),
        order_wf(order, nodes.len() as int),
        order.len() >= 1,
        0 <= p < nodes[order[0] as int].body@.len(),
        forall|j: int|
            0 <= j < nodes[order[0] as int].markers@.len() ==> !((#[trigger] nodes[order[0] as int].markers@[j]).at <= p
                < nodes[order[0] as int].markers@[j].at + width(nodes[order[0] as int].markers@[j])),
    ensures
        nodes[order[0] as int].body@.len() <= laid_out(nodes, order, order.len() as int).len(),
        laid_out(nodes, order, order.len() as int)[p] == nodes[order[0] as int].body@[p],
{
    let root = nodes[order[0] as int];
    assert(node_wf(root, nodes.len() as int));
    let mv = marker_values(nodes, order, 0);
    lemma_patched_len(root.body@, root.markers@, mv, root.markers@.len());
    lemma_patched_keeps(root.body@, root.markers@, mv, root.markers@.len(), p);
    assert(laid_out(nodes, order, 0) =~= Seq::<u8>::empty());
    assert(laid_out(nodes, order, 1) =~= patched(root.body@, root.markers@, mv, root.markers@.len()));
    lemma_laid_out_prefix(nodes, order, 1, order.len() as int);
    let whole = laid_out(nodes, order, order.len() as int);
    assert(whole.subrange(0, laid_out(nodes, order, 1).len() as int)[p] == whole[p]);
}

} // verus!

verus! {

/// Whether every table refers only to tables with smaller indices, as an
/// arena built children first is.
pub open spec fn arena_descending(nodes: Seq<TableNode>) -> bool {
    forall|v: int, i: int|
        0 <= v < nodes.len() && 0 <= i < nodes[v].markers@.len() ==> #[trigger] nodes[v].markers@[i].target
            < v
}

proof fn lemma_walk_shrinks(nodes: Seq<TableNode>, p: Seq<usize>, a: int, b: int)
    requires
        arena_descending(nodes),
        is_walk(nodes, p),
        0 <= a < b < p.len(),
    ensures
        p[b] < p[a],
    decreases b - a,
{
    if b - 1 > a {
        lemma_walk_shrinks(nodes, p, a, b - 1);
    }
    let k = b - 1;
    assert(is_edge(nodes, p[k] as int, p[k + 1] as int));
    let u = p[b - 1] as int;
    let i = choose|i: int| 0 <= i < nodes[u].markers@.len() && nodes[u].markers@[i].target == p[b];
    assert(nodes[u].markers@[i].target < u);
}

/// An arena in which every table refers only to tables with smaller indices
/// has no cycle, from any root.
pub proof fn lemma_descending_acyclic(nodes: Seq<TableNode>, root: usize)
    requires
        arena_descending(nodes),
    ensures
        !reaches_cycle(nodes, root),
{
    if reaches_cycle(nodes, root) {
        let p = choose|p: Seq<usize>| #[trigger] cycle_walk(nodes, root, p);
        let k = choose|k: int| 0 <= k < p.len() - 1 && p[k] == p.last();
        lemma_walk_shrinks(nodes, p, k, p.len() - 1);
    }
}

pub(crate) proof fn lemma_descending_grows(nodes: Seq<TableNode>, node: TableNode)
    requires
        arena_descending(nodes),
        forall|i: int| 0 <= i < node.markers@.len() ==> #[trigger] node.markers@[i].target < nodes.len(),
    ensures
        arena_descending(nodes.push(node)),
{
    let all = nodes.push(node);
    assert forall|v: int, i: int| 0 <= v < all.len() && 0 <= i < all[v].markers@.len() implies #[trigger] all[v].markers@[i].target < v by {
        if v < nodes.len() {
            assert(all[v] == nodes[v]);
        }
    }
}


pub(crate) proof fn lemma_order_len(order: Seq<usize>, n: int)
    requires
        n >= 0,
        order_wf(order, n),
    ensures
        order.len() <= n,
{
    lemma_distinct_bound(order, n);
}

} // verus!
