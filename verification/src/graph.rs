//! Adjacency lists from a list of edges.

use crate::error::ScanError;
use crate::model::{readable_as, run_len, value_at, State};
use vstd::prelude::*;

verus! {

/// Edge `i` of an edge list written as tokens: two vertex numbers, the
/// vertex it leaves and the vertex it reaches.
pub open spec fn edge_at(tokens: Seq<Seq<char>>, i: int) -> (usize, usize) {
    (value_at::<usize>(tokens, 2 * i), value_at::<usize>(tokens, 2 * i + 1))
}

/// The first `count` edges that `tokens` hold.
pub open spec fn edges_of(tokens: Seq<Seq<char>>, count: int) -> Seq<(usize, usize)> {
    Seq::new(count as nat, |i: int| edge_at(tokens, i))
}

/// Whether every vertex under which `edge` is entered has a list among the
/// lists `0..=n`: the vertex it leaves, and in an undirected graph the
/// vertex it reaches too.
pub open spec fn edge_fits(edge: (usize, usize), n: int, directed: bool) -> bool {
    edge.0 <= n && (directed || edge.1 <= n)
}

/// `edge_fits` as a predicate on the positions of `edges`.
pub open spec fn fits_in(edges: Seq<(usize, usize)>, n: int, directed: bool) -> spec_fn(
    int,
) -> bool {
    |i: int| 0 <= i < edges.len() && edge_fits(edges[i], n, directed)
}

/// The adjacency list of vertex `w`: for each edge in order, the vertex it
/// reaches if it leaves `w`, and then, in an undirected graph, the vertex it
/// leaves if it reaches `w`. Nothing is sorted and nothing left out: an
/// undirected loop at `w` enters `w` twice.
pub open spec fn neighbours(edges: Seq<(usize, usize)>, w: int, directed: bool) -> Seq<usize>
    decreases edges.len(),
{
    if edges.len() == 0 {
        Seq::empty()
    } else {
        let before = neighbours(edges.drop_last(), w, directed);
        let edge = edges.last();
        let forth = if edge.0 == w {
            before.push(edge.1)
        } else {
            before
        };
        if !directed && edge.1 == w {
            forth.push(edge.0)
        } else {
            forth
        }
    }
}

/// The adjacency lists of the vertices `0..=n`, vertex `w` at index `w`.
pub open spec fn adjacency(edges: Seq<(usize, usize)>, n: int, directed: bool) -> Seq<
    Seq<usize>,
> {
    Seq::new((n + 1) as nat, |w: int| neighbours(edges, w, directed))
}

/// The lists after `edge` has been entered in `lists`: the list of the
/// vertex it leaves has the vertex it reaches at its end, and then, in an
/// undirected graph, the list of the vertex it reaches has the vertex it
/// leaves at its end.
pub open spec fn with_edge(lists: Seq<Seq<usize>>, edge: (usize, usize), directed: bool) -> Seq<
    Seq<usize>,
> {
    Seq::new(
        lists.len(),
        |w: int|
            {
                let forth = if edge.0 == w {
                    lists[w].push(edge.1)
                } else {
                    lists[w]
                };
                if !directed && edge.1 == w {
                    forth.push(edge.0)
                } else {
                    forth
                }
            },
    )
}

/// Adjacency lists grow edge by edge: those of a list of edges with one more
/// edge at its end are those of the list with that edge entered.
pub proof fn lemma_with_edge(
    edges: Seq<(usize, usize)>,
    edge: (usize, usize),
    n: int,
    directed: bool,
)
    requires
        0 <= n,
    ensures
        adjacency(edges.push(edge), n, directed) == with_edge(
            adjacency(edges, n, directed),
            edge,
            directed,
        ),
{
    let more = edges.push(edge);
    assert(more.drop_last() =~= edges);
    assert(adjacency(more, n, directed) =~= with_edge(
        adjacency(edges, n, directed),
        edge,
        directed,
    ));
}

/// The adjacency lists of a graph on the vertices `0..=n` that has no edge
/// yet.
pub fn empty_lists(n: usize) -> (lists: Vec<Vec<usize>>)
    requires
        n < usize::MAX,
    ensures
        lists@.len() == n + 1,
        lists.deep_view() == adjacency(Seq::empty(), n as int, true),
        lists.deep_view() == adjacency(Seq::empty(), n as int, false),
{
    let mut lists: Vec<Vec<usize>> = Vec::new();
    let mut w: usize = 0;
    while w <= n
        invariant
            n < usize::MAX,
            w <= n + 1,
            lists@.len() == w,
            forall|x: int| 0 <= x < w ==> (#[trigger] lists@[x])@ == Seq::<usize>::empty(),
        decreases n + 1 - w,
    {
        lists.push(Vec::new());
        w += 1;
    }
    assert(forall|x: int|
        0 <= x <= n ==> #[trigger] lists.deep_view()[x] == Seq::<usize>::empty());
    lists
}

/// Enters the edge from `u` to `v` in `lists`, the adjacency lists of the
/// vertices `0..lists.len()`. An edge that does not fit is refused, and the
/// lists stay as they are.
pub fn file_edge(lists: &mut Vec<Vec<usize>>, u: usize, v: usize, directed: bool) -> (r: Result<
    (),
    ScanError,
>)
    ensures
        r == if edge_fits((u, v), old(lists)@.len() - 1, directed) {
            Ok::<(), ScanError>(())
        } else {
            Err::<(), ScanError>(ScanError::IndexOutOfRange)
        },
        final(lists)@.len() == old(lists)@.len(),
        final(lists).deep_view() == if r is Ok {
            with_edge(old(lists).deep_view(), (u, v), directed)
        } else {
            old(lists).deep_view()
        },
{
    let n: usize = lists.len();
    if u >= n || (!directed && v >= n) {
        return Err(ScanError::IndexOutOfRange);
    }
    lists[u].push(v);
    if !directed {
        lists[v].push(u);
    }
    proof {
        let expected = with_edge(old(lists).deep_view(), (u, v), directed);
        assert(forall|w: int| 0 <= w < n ==> #[trigger] lists.deep_view()[w] == expected[w]);
    }
    Ok(())
}

/// Reading `m` edges of a graph on the vertices `0..=n`, each as two vertex
/// numbers, edge after edge.
///
/// The read fails on the first edge that does not fit, once both of its
/// tokens have been asked for, or on the first token that cannot be read as
/// a vertex number, whichever comes first. No token is asked for after
/// that.
pub open spec fn read_graph(st: State, n: int, m: int, directed: bool) -> (
    Result<Seq<Seq<usize>>, ScanError>,
    State,
) {
    let s = st.stream();
    let k = run_len(readable_as::<usize>(s.tokens), 2 * m);
    let edges = edges_of(s.tokens, k / 2);
    let j = run_len(fits_in(edges, n, directed), edges.len() as int);
    if j < edges.len() {
        (Err(ScanError::IndexOutOfRange), st.advance(2 * j + 2))
    } else if k < 2 * m {
        (Err(s.failure_at(k)), st.advance(k + 1))
    } else {
        (Ok(adjacency(edges, n, directed)), st.advance(2 * m))
    }
}

/// Whether edge `i` of `edges` enters `x` in the list of `w`.
pub open spec fn enters(
    edges: Seq<(usize, usize)>,
    i: int,
    w: int,
    x: usize,
    directed: bool,
) -> bool {
    &&& 0 <= i < edges.len()
    &&& (edges[i].0 == w && edges[i].1 == x) || (!directed && edges[i].1 == w && edges[i].0 == x)
}

/// A vertex is in the list of `w` exactly where an edge puts it there: in a
/// directed graph an edge from `w` to it, in an undirected one an edge
/// between the two, whichever way it was written.
pub proof fn lemma_neighbours(edges: Seq<(usize, usize)>, w: int, directed: bool, x: usize)
    ensures
        neighbours(edges, w, directed).contains(x) <==> exists|i: int|
            enters(edges, i, w, x, directed),
    decreases edges.len(),
{
    let list = neighbours(edges, w, directed);
    if edges.len() > 0 {
        let fewer = edges.drop_last();
        let before = neighbours(fewer, w, directed);
        let edge = edges.last();
        let last = edges.len() - 1;
        lemma_neighbours(fewer, w, directed, x);
        if list.contains(x) {
            let at = choose|at: int| 0 <= at < list.len() && list[at] == x;
            if at < before.len() {
                let i = choose|i: int| enters(fewer, i, w, x, directed);
                assert(enters(edges, i, w, x, directed));
            } else {
                assert(enters(edges, last, w, x, directed));
            }
        }
        if exists|i: int| enters(edges, i, w, x, directed) {
            let i = choose|i: int| enters(edges, i, w, x, directed);
            if i < last {
                assert(enters(fewer, i, w, x, directed));
                let at = choose|at: int| 0 <= at < before.len() && before[at] == x;
                assert(list[at] == x);
            } else if edge.0 == w && edge.1 == x {
                assert(list[before.len() as int] == x);
            } else {
                assert(list[list.len() - 1] == x);
            }
        }
    }
}

/// A vertex that no edge enters anything under has an empty list: the list
/// of vertex 0 is empty where the vertices are numbered from 1.
pub proof fn lemma_unused_vertex(edges: Seq<(usize, usize)>, w: int, directed: bool)
    requires
        forall|i: int| 0 <= i < edges.len() ==> (#[trigger] edges[i]).0 != w,
        directed || forall|i: int| 0 <= i < edges.len() ==> (#[trigger] edges[i]).1 != w,
    ensures
        neighbours(edges, w, directed) == Seq::<usize>::empty(),
    decreases edges.len(),
{
    if edges.len() > 0 {
        lemma_unused_vertex(edges.drop_last(), w, directed);
    }
}

} // verus!
