//! Ghost map navigation: follow a repeating list of left/right turns
//! through a node graph until an end node is reached.  The second part
//! runs several walks at once and combines their lengths with the
//! least common multiple.

use vstd::prelude::*;

verus! {

/// A node: its name and the names of its two children, each name
/// packed from three characters.
#[derive(Clone, Copy, Debug, PartialEq, Eq, Structural)]
pub struct Node {
    pub id: u64,
    pub left: u64,
    pub right: u64,
}

/// Three characters packed into one number, collision-free.
pub open spec fn pack_id(a: char, b: char, c: char) -> int {
    (a as u32) * 0x400_0000_0000 + (b as u32) * 0x20_0000 + (c as u32)
}

/// The name of the start node.
pub open spec fn start_id() -> int {
    pack_id('A', 'A', 'A')
}

/// The name of the end node.
pub open spec fn end_id() -> int {
    pack_id('Z', 'Z', 'Z')
}

/// The first listed node with the given name, or -1.
pub open spec fn find_node(ns: Seq<Node>, id: int) -> int
    decreases ns.len(),
{
    if ns.len() == 0 {
        -1
    } else if ns[0].id == id {
        0
    } else {
        let r = find_node(ns.drop_first(), id);
        if r == -1 {
            -1
        } else {
            r + 1
        }
    }
}

pub proof fn lemma_find_node(ns: Seq<Node>, id: int)
    ensures
        find_node(ns, id) == -1 || (0 <= find_node(ns, id) < ns.len() && ns[find_node(
            ns,
            id,
        )].id == id),
        find_node(ns, id) == -1 ==> forall|k: int| 0 <= k < ns.len() ==> (#[trigger] ns[k]).id != id,
    decreases ns.len(),
{
    if ns.len() > 0 && ns[0].id != id {
        lemma_find_node(ns.drop_first(), id);
        if find_node(ns, id) == -1 {
            assert forall|k: int| 0 <= k < ns.len() implies (#[trigger] ns[k]).id != id by {
                if k > 0 {
                    assert(ns.drop_first()[k - 1] == ns[k]);
                }
            }
        }
    }
}

/// One step from the node named `x`: its left child on `true`, its
/// right child otherwise.
pub open spec fn step(ns: Seq<Node>, x: int, left: bool) -> int {
    let i = find_node(ns, x);
    if left {
        ns[i].left as int
    } else {
        ns[i].right as int
    }
}

/// The node name reached after `n` steps from `x`, the turns repeating.
pub open spec fn walk(dirs: Seq<bool>, ns: Seq<Node>, x: int, n: int) -> int
    decreases n,
{
    if n <= 0 {
        x
    } else {
        step(ns, walk(dirs, ns, x, n - 1), dirs[(n - 1) % (dirs.len() as int)])
    }
}

/// Every child name appears as a node, so a walk never leaves the map.
pub open spec fn graph_closed(ns: Seq<Node>) -> bool {
    forall|k: int|
        0 <= k < ns.len() ==> find_node(ns, (#[trigger] ns[k]).left as int) >= 0 && find_node(
            ns,
            ns[k].right as int,
        ) >= 0
}

/// The walk from `x` first reaches a name satisfying the goal after
/// exactly `n` steps.
pub open spec fn first_hit(dirs: Seq<bool>, ns: Seq<Node>, x: int, goal: int, n: int) -> bool {
    &&& 1 <= n
    &&& walk(dirs, ns, x, n) == goal
    &&& forall|k: int| 1 <= k < n ==> walk(dirs, ns, x, k) != goal
}

/// Walk from `x` until the goal name comes up, and count the steps.
fn walk_until(dirs: &Vec<bool>, nodes: &Vec<Node>, x: u64, goal: u64) -> (r: u64)
    requires
        dirs@.len() >= 1,
        graph_closed(nodes@),
        find_node(nodes@, x as int) >= 0,
        exists|n: int|
            1 <= n <= u64::MAX && walk(dirs@, nodes@, x as int, n) == goal,
    ensures
        first_hit(dirs@, nodes@, x as int, goal as int, r as int),
{
    let ghost nn = choose|n: int| 1 <= n <= u64::MAX && walk(dirs@, nodes@, x as int, n) == goal;
    let mut cur = x;
    let mut steps: u64 = 0;
    let mut di: usize = 0;
    loop
        invariant
            dirs@.len() >= 1,
            graph_closed(nodes@),
            find_node(nodes@, cur as int) >= 0,
            0 <= steps,
            cur as int == walk(dirs@, nodes@, x as int, steps as int),
            di == steps as int % (dirs@.len() as int),
            0 <= di < dirs@.len(),
            forall|k: int| 1 <= k <= steps ==> walk(dirs@, nodes@, x as int, k) != goal,
            1 <= nn <= u64::MAX && walk(dirs@, nodes@, x as int, nn) == goal,
            steps < nn,
        ensures
            first_hit(dirs@, nodes@, x as int, goal as int, steps as int),
        decreases nn - steps,
    {
        let d = dirs[di];
        let n = nodes.len();
        let mut i: usize = 0;
        let ghost fi = find_node(nodes@, cur as int);
        proof {
            lemma_find_node(nodes@, cur as int);
            lemma_find_first(nodes@, cur as int, fi);
        }
        let mut next = cur;
        while i < n
            invariant
                n == nodes@.len(),
                0 <= fi < n,
                nodes@[fi].id == cur,
                forall|k: int| 0 <= k < fi ==> (#[trigger] nodes@[k]).id != cur,
                0 <= i <= fi,
            ensures
                next == (if d {
                    nodes@[fi].left
                } else {
                    nodes@[fi].right
                }),
            decreases n - i,
        {
            if nodes[i].id == cur {
                proof {
                    assert(i == fi);
                }
                next = if d {
                    nodes[i].left
                } else {
                    nodes[i].right
                };
                break;
            }
            proof {
                assert(i < fi);
            }
            i = i + 1;
        }
        proof {
            assert(next == (if d {
                nodes@[fi].left
            } else {
                nodes@[fi].right
            }));
            assert(next as int == step(nodes@, cur as int, d));
            assert(walk(dirs@, nodes@, x as int, steps + 1) == step(
                nodes@,
                walk(dirs@, nodes@, x as int, steps as int),
                dirs@[(steps as int) % (dirs@.len() as int)],
            ));
            assert(find_node(nodes@, next as int) >= 0) by {
                assert(find_node(nodes@, nodes@[fi].left as int) >= 0);
                assert(find_node(nodes@, nodes@[fi].right as int) >= 0);
            }
        }
        cur = next;
        steps = steps + 1;
        if cur == goal {
            proof {
                assert(walk(dirs@, nodes@, x as int, steps as int) == goal);
            }
            return steps;
        }
        proof {
            assert(steps < nn) by {
                if steps == nn {
                    assert(walk(dirs@, nodes@, x as int, nn) == goal);
                    assert(false);
                }
                if steps > nn {
                    assert(walk(dirs@, nodes@, x as int, nn) != goal);
                    assert(false);
                }
            }
        }
        let dl = dirs.len();
        di = di + 1;
        if di == dl {
            di = 0;
        }
        proof {
            let l = dirs@.len() as int;
            assert(steps as int % l == (if (steps - 1) % l + 1 == l {
                0int
            } else {
                (steps - 1) % l + 1
            })) by (nonlinear_arith)
                requires
                    l >= 1 && steps >= 1,
            ;
            assert(di == steps as int % l);
        }
    }
}

proof fn lemma_find_first(ns: Seq<Node>, id: int, f: int)
    requires
        f == find_node(ns, id),
        f >= 0,
    ensures
        forall|k: int| 0 <= k < f ==> (#[trigger] ns[k]).id != id,
    decreases ns.len(),
{
    lemma_find_node(ns, id);
    if ns.len() > 0 && ns[0].id != id {
        lemma_find_first(ns.drop_first(), id, f - 1);
        assert forall|k: int| 0 <= k < f implies (#[trigger] ns[k]).id != id by {
            if k > 0 {
                assert(0 <= k - 1 < ns.drop_first().len());
                assert(ns.drop_first()[k - 1] == ns[k]);
            }
        }
    }
}

/// The greatest common divisor.
pub open spec fn gcd_s(a: nat, b: nat) -> nat
    decreases b,
{
    if b == 0 {
        a
    } else {
        gcd_s(b, a % b)
    }
}

/// The least common multiple; zero when either value is zero.
pub open spec fn lcm_s(a: nat, b: nat) -> nat {
    if a == 0 || b == 0 {
        0
    } else {
        (a * b) / gcd_s(a, b)
    }
}

/// Relies on `num`'s `integer::lcm`: the least common multiple of the
/// two values, computed through Stein's binary greatest common
/// divisor.
#[verifier::external_body]
fn lcm_u64(a: u64, b: u64) -> (r: u64)
    requires
        lcm_s(a as nat, b as nat) <= u64::MAX,
    ensures
        r == lcm_s(a as nat, b as nat),
{
    num::integer::lcm(a, b)
}

/// The left/right turns of the first line, `true` for left.
pub open spec fn dirs_spec(l: Seq<char>) -> Seq<bool> {
    Seq::new(l.len(), |i: int| l[i] == 'L')
}

/// Every character of the turn line is a turn.
pub open spec fn dirs_ok(l: Seq<char>) -> bool {
    l.len() >= 1 && forall|i: int| 0 <= i < l.len() ==> l[i] == 'L' || l[i] == 'R'
}

/// One node line in the fixed shape `AAA = (BBB, CCC)`.
pub open spec fn node_line_ok(l: Seq<char>) -> bool {
    l.len() >= 15
}

/// The node a line describes.
pub open spec fn node_spec(l: Seq<char>) -> Node {
    Node {
        id: pack_id(l[0], l[1], l[2]) as u64,
        left: pack_id(l[7], l[8], l[9]) as u64,
        right: pack_id(l[12], l[13], l[14]) as u64,
    }
}

/// The nodes of the lines from the third on.
pub open spec fn nodes_spec(ls: Seq<Seq<char>>) -> Seq<Node> {
    Seq::new(
        if ls.len() >= 2 {
            (ls.len() - 2) as nat
        } else {
            0
        },
        |i: int| node_spec(ls[i + 2]),
    )
}

/// A well-shaped map: a turn line, a blank line, then node lines.
pub open spec fn map_ok(ls: Seq<Seq<char>>) -> bool {
    &&& ls.len() >= 3
    &&& dirs_ok(ls[0])
    &&& forall|i: int| 2 <= i < ls.len() ==> node_line_ok(#[trigger] ls[i])
}

/// Pack three characters into one number.
fn pack(a: char, b: char, c: char) -> (r: u64)
    ensures
        r == pack_id(a, b, c),
{
    (a as u64) * 0x400_0000_0000 + (b as u64) * 0x20_0000 + (c as u64)
}

/// Read the turn line and the node lines.
fn parse_map(lines: &Vec<Vec<char>>) -> (r: (Vec<bool>, Vec<Node>))
    requires
        map_ok(lines.deep_view()),
    ensures
        r.0@ == dirs_spec(lines.deep_view()[0]),
        r.1@ == nodes_spec(lines.deep_view()),
{
    let ghost ls = lines.deep_view();
    let mut dirs: Vec<bool> = Vec::new();
    let l0 = &lines[0];
    let dn = l0.len();
    let mut i: usize = 0;
    proof {
        assert(l0@ == ls[0]);
    }
    while i < dn
        invariant
            dn == l0@.len(),
            l0@ == ls[0],
            0 <= i <= dn,
            dirs@.len() == i,
            forall|k: int| 0 <= k < i ==> dirs@[k] == dirs_spec(ls[0])[k],
        decreases dn - i,
    {
        dirs.push(l0[i] == 'L');
        i = i + 1;
    }
    proof {
        assert(dirs@ =~= dirs_spec(ls[0]));
    }
    let n = lines.len();
    let mut nodes: Vec<Node> = Vec::new();
    let mut j: usize = 2;
    while j < n
        invariant
            n == ls.len(),
            n == lines@.len(),
            ls == lines.deep_view(),
            map_ok(ls),
            2 <= j <= n,
            nodes@.len() == j - 2,
            forall|k: int| 0 <= k < j - 2 ==> nodes@[k] == nodes_spec(ls)[k],
        decreases n - j,
    {
        let l = &lines[j];
        proof {
            assert(l@ == ls[j as int]);
            assert(node_line_ok(ls[j as int]));
        }
        let id = pack(l[0], l[1], l[2]);
        let left = pack(l[7], l[8], l[9]);
        let right = pack(l[12], l[13], l[14]);
        nodes.push(Node { id, left, right });
        proof {
            assert(nodes@[j - 2] == node_spec(ls[j as int]));
        }
        j = j + 1;
    }
    proof {
        assert(nodes@ =~= nodes_spec(ls));
    }
    (dirs, nodes)
}

/// How many steps the walk from `AAA` takes to first reach `ZZZ`.
pub fn part1(input: &str) -> (r: u64)
    requires
        map_ok(crate::text::lines_of(input@)),
        graph_closed(nodes_spec(crate::text::lines_of(input@))),
        find_node(nodes_spec(crate::text::lines_of(input@)), start_id()) >= 0,
        exists|n: int|
            1 <= n <= u64::MAX && walk(
                dirs_spec(crate::text::lines_of(input@)[0]),
                nodes_spec(crate::text::lines_of(input@)),
                start_id(),
                n,
            ) == end_id(),
    ensures
        first_hit(
            dirs_spec(crate::text::lines_of(input@)[0]),
            nodes_spec(crate::text::lines_of(input@)),
            start_id(),
            end_id(),
            r as int,
        ),
{
    let ghost ls = crate::text::lines_of(input@);
    let linevecs = crate::text::str_lines(input);
    let (dirs, nodes) = parse_map(&linevecs);
    let start = pack('A', 'A', 'A');
    let goal = pack('Z', 'Z', 'Z');
    walk_until(&dirs, &nodes, start, goal)
}

/// Does the node name end in the given character?
pub open spec fn ends_in(id: int, c: char) -> bool {
    id % 0x20_0000 == c as u32
}

/// The positions of the nodes whose names end in `A`, in list order.
pub open spec fn ghost_starts(ns: Seq<Node>) -> Seq<int> {
    Seq::new(ns.len(), |i: int| i).filter(|i: int| ends_in(ns[i].id as int, 'A'))
}

/// The least common multiple folded over a list, from one.
pub open spec fn lcm_fold(ds: Seq<u64>) -> nat
    decreases ds.len(),
{
    if ds.len() == 0 {
        1
    } else {
        lcm_s(lcm_fold(ds.drop_last()), ds.last() as nat)
    }
}

/// Walks start from every node ending in `A` and each first reaches a
/// node ending in `Z` after some number of steps within reach; all the
/// intermediate least common multiples stay within the machine word.
pub open spec fn part2_ok(dirs: Seq<bool>, ns: Seq<Node>) -> bool {
    &&& forall|k: int|
        0 <= k < ns.len() && ends_in((#[trigger] ns[k]).id as int, 'A') ==> exists|n: int|
            1 <= n <= u64::MAX && ends_in(walk(dirs, ns, ns[k].id as int, n), 'Z')
}

/// The first-reach distances of the `A`-walks, one per starting node,
/// in list order.
pub open spec fn hits_of(dirs: Seq<bool>, ns: Seq<Node>, ds: Seq<u64>) -> bool {
    &&& ds.len() == ghost_starts(ns).len()
    &&& forall|k: int|
        0 <= k < ds.len() ==> first_hit_z(dirs, ns, ns[ghost_starts(ns)[k]].id as int, #[trigger] ds[k] as int)
}

/// The walk from `x` first reaches a name ending in `Z` after exactly
/// `n` steps.
pub open spec fn first_hit_z(dirs: Seq<bool>, ns: Seq<Node>, x: int, n: int) -> bool {
    &&& 1 <= n
    &&& ends_in(walk(dirs, ns, x, n), 'Z')
    &&& forall|k: int| 1 <= k < n ==> !ends_in(walk(dirs, ns, x, k), 'Z')
}

/// Walk from `x` until a name ending in `Z` comes up.
fn walk_until_z(dirs: &Vec<bool>, nodes: &Vec<Node>, x: u64) -> (r: u64)
    requires
        dirs@.len() >= 1,
        graph_closed(nodes@),
        find_node(nodes@, x as int) >= 0,
        exists|n: int| 1 <= n <= u64::MAX && ends_in(walk(dirs@, nodes@, x as int, n), 'Z'),
    ensures
        first_hit_z(dirs@, nodes@, x as int, r as int),
{
    let ghost nn = choose|n: int|
        1 <= n <= u64::MAX && ends_in(walk(dirs@, nodes@, x as int, n), 'Z');
    let mut cur = x;
    let mut steps: u64 = 0;
    let mut di: usize = 0;
    loop
        invariant
            dirs@.len() >= 1,
            graph_closed(nodes@),
            find_node(nodes@, cur as int) >= 0,
            0 <= steps,
            cur as int == walk(dirs@, nodes@, x as int, steps as int),
            di == steps as int % (dirs@.len() as int),
            0 <= di < dirs@.len(),
            forall|k: int| 1 <= k <= steps ==> !ends_in(walk(dirs@, nodes@, x as int, k), 'Z'),
            1 <= nn <= u64::MAX && ends_in(walk(dirs@, nodes@, x as int, nn), 'Z'),
            steps < nn,
        ensures
            first_hit_z(dirs@, nodes@, x as int, steps as int),
        decreases nn - steps,
    {
        let d = dirs[di];
        let n = nodes.len();
        let mut i: usize = 0;
        let ghost fi = find_node(nodes@, cur as int);
        proof {
            lemma_find_node(nodes@, cur as int);
            lemma_find_first(nodes@, cur as int, fi);
        }
        let mut next = cur;
        while i < n
            invariant
                n == nodes@.len(),
                0 <= fi < n,
                nodes@[fi].id == cur,
                forall|k: int| 0 <= k < fi ==> (#[trigger] nodes@[k]).id != cur,
                0 <= i <= fi,
            ensures
                next == (if d {
                    nodes@[fi].left
                } else {
                    nodes@[fi].right
                }),
            decreases n - i,
        {
            if nodes[i].id == cur {
                proof {
                    assert(i == fi);
                }
                next = if d {
                    nodes[i].left
                } else {
                    nodes[i].right
                };
                break;
            }
            proof {
                assert(i < fi);
            }
            i = i + 1;
        }
        proof {
            assert(next as int == step(nodes@, cur as int, d));
            assert(walk(dirs@, nodes@, x as int, steps + 1) == step(
                nodes@,
                walk(dirs@, nodes@, x as int, steps as int),
                dirs@[(steps as int) % (dirs@.len() as int)],
            ));
            assert(find_node(nodes@, next as int) >= 0) by {
                assert(find_node(nodes@, nodes@[fi].left as int) >= 0);
                assert(find_node(nodes@, nodes@[fi].right as int) >= 0);
            }
        }
        cur = next;
        steps = steps + 1;
        if cur % 0x20_0000 == ('Z' as u64) {
            proof {
                assert(ends_in(walk(dirs@, nodes@, x as int, steps as int), 'Z'));
            }
            return steps;
        }
        proof {
            assert(!ends_in(cur as int, 'Z'));
            assert(steps < nn) by {
                if steps == nn {
                    assert(false);
                }
                if steps > nn {
                    assert(!ends_in(walk(dirs@, nodes@, x as int, nn), 'Z'));
                    assert(false);
                }
            }
        }
        let dl = dirs.len();
        di = di + 1;
        if di == dl {
            di = 0;
        }
        proof {
            let l = dirs@.len() as int;
            assert(steps as int % l == (if (steps - 1) % l + 1 == l {
                0int
            } else {
                (steps - 1) % l + 1
            })) by (nonlinear_arith)
                requires
                    l >= 1 && steps >= 1,
            ;
            assert(di == steps as int % l);
        }
    }
}

/// The least common multiple of the walk lengths from every node
/// ending in `A` to its first node ending in `Z`.
pub fn part2(input: &str) -> (r: u64)
    requires
        map_ok(crate::text::lines_of(input@)),
        graph_closed(nodes_spec(crate::text::lines_of(input@))),
        part2_ok(
            dirs_spec(crate::text::lines_of(input@)[0]),
            nodes_spec(crate::text::lines_of(input@)),
        ),
        forall|ds: Seq<u64>|
            hits_of(
                dirs_spec(crate::text::lines_of(input@)[0]),
                nodes_spec(crate::text::lines_of(input@)),
                ds,
            ) ==> forall|k: int|
                0 <= k <= ds.len() ==> #[trigger] lcm_fold(ds.take(k)) <= u64::MAX,
    ensures
        exists|ds: Seq<u64>|
            hits_of(
                dirs_spec(crate::text::lines_of(input@)[0]),
                nodes_spec(crate::text::lines_of(input@)),
                ds,
            ) && r == lcm_fold(ds),
{
    let ghost ls = crate::text::lines_of(input@);
    let ghost dspec = dirs_spec(ls[0]);
    let ghost nspec = nodes_spec(ls);
    let linevecs = crate::text::str_lines(input);
    let (dirs, nodes) = parse_map(&linevecs);
    let n = nodes.len();
    let mut dists: Vec<u64> = Vec::new();
    let ghost gs = ghost_starts(nspec);
    let mut i: usize = 0;
    proof {
        lemma_ghost_starts_prefix(nspec, 0);
        assert(Seq::new(nspec.len(), |t: int| t).take(0) =~= Seq::<int>::empty());
        assert(gs.take(0) =~= Seq::<int>::empty());
        assert(dists@ =~= Seq::<u64>::empty());
    }
    while i < n
        invariant
            n == nspec.len(),
            nodes@ == nspec,
            dirs@ == dspec,
            dspec.len() >= 1,
            graph_closed(nspec),
            part2_ok(dspec, nspec),
            0 <= i <= n,
            ({
                let pre = prefix_starts(nspec, i as int);
                dists@.len() == pre.len() && forall|k: int|
                    0 <= k < pre.len() ==> first_hit_z(
                        dspec,
                        nspec,
                        nspec[pre[k]].id as int,
                        #[trigger] dists@[k] as int,
                    )
            }),
        decreases n - i,
    {
        let ghost pre = prefix_starts(nspec, i as int);
        proof {
            lemma_prefix_starts_step(nspec, i as int);
        }
        let nd = nodes[i];
        if nd.id % 0x20_0000 == ('A' as u64) {
            proof {
                assert(ends_in(nspec[i as int].id as int, 'A'));
                assert(find_node(nspec, nd.id as int) >= 0) by {
                    lemma_find_node(nspec, nd.id as int);
                    if find_node(nspec, nd.id as int) == -1 {
                        assert(nspec[i as int].id != nd.id);
                    }
                }
            }
            let d = walk_until_z(&dirs, &nodes, nd.id);
            dists.push(d);
            proof {
                assert(prefix_starts(nspec, i + 1) =~= pre.push(i as int));
                assert(forall|k: int|
                    0 <= k < pre.len() ==> prefix_starts(nspec, i + 1)[k] == pre[k]);
            }
        } else {
            proof {
                assert(!ends_in(nspec[i as int].id as int, 'A'));
                assert(prefix_starts(nspec, i + 1) =~= pre);
            }
        }
        i = i + 1;
    }
    proof {
        lemma_ghost_starts_prefix(nspec, n as int);
        assert(Seq::new(nspec.len(), |t: int| t).take(n as int) =~= Seq::new(
            nspec.len(),
            |t: int| t,
        ));
        assert(prefix_starts(nspec, n as int) == gs);
        assert(hits_of(dspec, nspec, dists@));
    }
    let dn = dists.len();
    let mut acc: u64 = 1;
    let mut j: usize = 0;
    proof {
        assert(dists@.take(0) =~= Seq::<u64>::empty());
    }
    while j < dn
        invariant
            dn == dists@.len(),
            hits_of(dspec, nspec, dists@),
            forall|k: int| 0 <= k <= dn ==> #[trigger] lcm_fold(dists@.take(k)) <= u64::MAX,
            0 <= j <= dn,
            acc == lcm_fold(dists@.take(j as int)),
        decreases dn - j,
    {
        proof {
            assert(dists@.take((j + 1) as int).drop_last() =~= dists@.take(j as int));
            assert(dists@.take((j + 1) as int).last() == dists@[j as int]);
            assert(lcm_fold(dists@.take(j + 1)) == lcm_s(
                lcm_fold(dists@.take(j as int)),
                dists@[j as int] as nat,
            ));
        }
        acc = lcm_u64(acc, dists[j]);
        j = j + 1;
    }
    proof {
        assert(dists@.take(dn as int) =~= dists@);
    }
    acc
}

/// The start positions among the first `i` nodes.
pub open spec fn prefix_starts(ns: Seq<Node>, i: int) -> Seq<int> {
    Seq::new(ns.len(), |t: int| t).take(i).filter(|t: int| ends_in(ns[t].id as int, 'A'))
}

proof fn lemma_ghost_starts_prefix(ns: Seq<Node>, i: int)
    ensures
        ghost_starts(ns) == Seq::new(ns.len(), |t: int| t).filter(
            |t: int| ends_in(ns[t].id as int, 'A'),
        ),
{
}

proof fn lemma_prefix_starts_step(ns: Seq<Node>, i: int)
    requires
        0 <= i < ns.len(),
    ensures
        ends_in(ns[i].id as int, 'A') ==> prefix_starts(ns, i + 1) == prefix_starts(ns, i).push(i),
        !ends_in(ns[i].id as int, 'A') ==> prefix_starts(ns, i + 1) == prefix_starts(ns, i),
{
    let idx = Seq::new(ns.len(), |t: int| t);
    let p = |t: int| ends_in(ns[t].id as int, 'A');
    assert(idx.take(i + 1).drop_last() =~= idx.take(i));
    assert(idx.take(i + 1).last() == i);
    reveal_with_fuel(Seq::filter, 2);
    assert(idx.take(i + 1) == idx.take(i).push(i));
    lemma_filter_push(idx.take(i), i, p);
}

/// Filtering past one pushed value keeps or adds just that value.
proof fn lemma_filter_push(s: Seq<int>, x: int, p: spec_fn(int) -> bool)
    ensures
        p(x) ==> s.push(x).filter(p) == s.filter(p).push(x),
        !p(x) ==> s.push(x).filter(p) == s.filter(p),
    decreases s.len(),
{
    reveal_with_fuel(Seq::filter, 2);
    assert(s.push(x).drop_last() =~= s);
    assert(s.push(x).last() == x);
}

} // verus!
