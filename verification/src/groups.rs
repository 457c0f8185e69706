//! Grouping the triangles of a mesh into connected coplanar groups.
use vstd::prelude::*;

verus! {

/// The indices of the triangles among the first `n` that have a corner at
/// vertex `v`, ascending, once for each such corner.
pub open spec fn incident(triangles: Seq<[u32; 3]>, v: int, n: int) -> Seq<usize>
    decreases n,
{
    if n <= 0 {
        Seq::empty()
    } else {
        let prev = incident(triangles, v, n - 1);
        let t = (n - 1) as usize;
        let tri = triangles[n - 1];
        let a = if tri[0] == v {
            prev.push(t)
        } else {
            prev
        };
        let b = if tri[1] == v {
            a.push(t)
        } else {
            a
        };
        if tri[2] == v {
            b.push(t)
        } else {
            b
        }
    }
}

/// Lists, for each vertex, the triangles with a corner at it: ascending, a
/// triangle once for each of its corners there.
pub fn calculate_vertex_to_triangle_map(vertex_count: usize, triangles: &[[u32; 3]]) -> (r: Vec<Vec<usize>>)
    requires
        forall|t: int, c: int| 0 <= t < triangles@.len() && 0 <= c < 3 ==> #[trigger] triangles@[t][c] < vertex_count,
    ensures
        r@.len() == vertex_count,
        forall|v: int| 0 <= v < vertex_count ==> (#[trigger] r@[v])@ == incident(triangles@, v, triangles@.len() as int),
{
    let mut map: Vec<Vec<usize>> = Vec::new();
    let mut v: usize = 0;
    while v < vertex_count
        invariant
            v <= vertex_count,
            map@.len() == v,
            forall|w: int| 0 <= w < v ==> (#[trigger] map@[w])@ == Seq::<usize>::empty(),
        decreases vertex_count - v,
    {
        map.push(Vec::new());
        v = v + 1;
    }
    let mut t: usize = 0;
    while t < triangles.len()
        invariant
            t <= triangles@.len(),
            map@.len() == vertex_count,
            forall|tt: int, c: int| 0 <= tt < triangles@.len() && 0 <= c < 3 ==> #[trigger] triangles@[tt][c] < vertex_count,
            forall|w: int| 0 <= w < vertex_count ==> (#[trigger] map@[w])@ == incident(triangles@, w, t as int),
        decreases triangles@.len() - t,
    {
        let tri = triangles[t];
        let ghost before = map@;
        let mut c: usize = 0;
        while c < 3
            invariant
                c <= 3,
                t < triangles@.len(),
                tri == triangles@[t as int],
                map@.len() == vertex_count,
                forall|cc: int| 0 <= cc < 3 ==> #[trigger] tri[cc] < vertex_count,
                forall|w: int|
                    0 <= w < vertex_count ==> (#[trigger] map@[w])@ == before[w]@ + Seq::new(
                        count_corners(tri, w, c as int),
                        |_k: int| t,
                    ),
            decreases 3 - c,
        {
            let vertex = tri[c] as usize;
            let ghost mid = map@;
            map[vertex].push(t);
            proof {
                assert forall|w: int| 0 <= w < vertex_count implies (#[trigger] map@[w])@ == before[w]@ + Seq::new(
                    count_corners(tri, w, (c + 1) as int),
                    |_k: int| t,
                ) by {
                    if w == vertex {
                        assert(map@[w]@ == mid[w]@.push(t));
                    } else {
                        assert(map@[w] == mid[w]);
                    }
                    assert(before[w]@ + Seq::new(count_corners(tri, w, (c + 1) as int), |_k: int| t) =~= map@[w]@);
                }
            }
            c = c + 1;
        }
        proof {
            assert forall|w: int| 0 <= w < vertex_count implies (#[trigger] map@[w])@ == incident(triangles@, w, (t + 1) as int) by {
                lemma_incident_step(triangles@, w, t as int);
            }
        }
        t = t + 1;
    }
    map
}

/// One more triangle adds its index once for each of its corners at `w`.
proof fn lemma_incident_step(triangles: Seq<[u32; 3]>, w: int, t: int)
    requires
        0 <= t < triangles.len(),
    ensures
        incident(triangles, w, t + 1) == incident(triangles, w, t) + Seq::new(
            count_corners(triangles[t], w, 3),
            |_k: int| t as usize,
        ),
{
    reveal_with_fuel(count_corners, 4);
    let tri = triangles[t];
    let prev = incident(triangles, w, t);
    let u = t as usize;
    let a = if tri[0] == w { prev.push(u) } else { prev };
    let b = if tri[1] == w { a.push(u) } else { a };
    let e = if tri[2] == w { b.push(u) } else { b };
    assert(incident(triangles, w, t + 1) == e);
    assert(e =~= prev + Seq::new(count_corners(tri, w, 3), |_k: int| u));
}

/// The number of the first `c` corners of `tri` that are at vertex `w`.
pub open spec fn count_corners(tri: [u32; 3], w: int, c: int) -> nat
    decreases c,
{
    if c <= 0 {
        0
    } else {
        count_corners(tri, w, c - 1) + if tri[c - 1] == w {
            1nat
        } else {
            0nat
        }
    }
}

/// Whether triangle `n` is listed in `map` at one of the corners of
/// triangle `x`.
pub open spec fn listed_near(triangles: Seq<[u32; 3]>, map: Seq<Vec<usize>>, x: int, n: usize) -> bool {
    exists|c: int, j: int|
        0 <= c < 3 && 0 <= j < map[triangles[x][c] as int]@.len() && #[trigger] map[triangles[x][c] as int]@[j] == n
}

/// Whether `map` lists, at each vertex of the triangles, only triangles.
pub open spec fn map_fits(triangles: Seq<[u32; 3]>, map: Seq<Vec<usize>>) -> bool {
    &&& forall|t: int, c: int| 0 <= t < triangles.len() && 0 <= c < 3 ==> #[trigger] triangles[t][c] < map.len()
    &&& forall|v: int, j: int| 0 <= v < map.len() && 0 <= j < map[v]@.len() ==> #[trigger] map[v]@[j] < triangles.len()
}

/// Whether triangle `x` is in one of the first `g` groups.
pub open spec fn in_groups(groups: Seq<Vec<usize>>, g: int, x: usize) -> bool {
    exists|h: int, k: int| 0 <= h < g && 0 <= k < groups[h]@.len() && #[trigger] groups[h]@[k] == x
}

/// Whether triangle `n` is listed at a corner of one of the first `upto`
/// triangles of `group`, which `coplanar` called coplanar with it.
pub open spec fn reached_within<C: Fn(usize, usize) -> bool>(
    triangles: Seq<[u32; 3]>,
    map: Seq<Vec<usize>>,
    coplanar: C,
    group: Seq<usize>,
    upto: int,
    n: usize,
) -> bool {
    exists|k: int|
        0 <= k < upto && listed_near(triangles, map, group[k] as int, n) && #[trigger] call_ensures(coplanar, (group[k], n), true)
}

/// Reaching a triangle from the first triangles of a group stays true as
/// the group grows.
proof fn lemma_reached_push<C: Fn(usize, usize) -> bool>(
    triangles: Seq<[u32; 3]>,
    map: Seq<Vec<usize>>,
    coplanar: C,
    group: Seq<usize>,
    upto: int,
    upto2: int,
    n: usize,
    x: usize,
)
    requires
        reached_within(triangles, map, coplanar, group, upto, n),
        upto <= upto2,
        upto <= group.len(),
    ensures
        reached_within(triangles, map, coplanar, group.push(x), upto2, n),
{
    let k = choose|k: int|
        0 <= k < upto && listed_near(triangles, map, group[k] as int, n) && #[trigger] call_ensures(coplanar, (group[k], n), true);
    assert(group.push(x)[k] == group[k]);
}

/// The number of `false` entries.
pub open spec fn count_false(s: Seq<bool>) -> nat
    decreases s.len(),
{
    if s.len() == 0 {
        0
    } else {
        count_false(s.drop_last()) + if s.last() {
            0nat
        } else {
            1nat
        }
    }
}

/// Setting a `false` entry to `true` leaves one `false` entry fewer.
proof fn lemma_count_false_set(s: Seq<bool>, i: int)
    requires
        0 <= i < s.len(),
        !s[i],
    ensures
        count_false(s.update(i, true)) + 1 == count_false(s),
    decreases s.len(),
{
    let u = s.update(i, true);
    if i < s.len() - 1 {
        assert(u.drop_last() =~= s.drop_last().update(i, true));
        lemma_count_false_set(s.drop_last(), i);
    } else {
        assert(u.drop_last() =~= s.drop_last());
    }
}

/// Pushes onto `queue` the triangles listed at the corners of triangle `x`
/// that are not visited and that `coplanar` calls coplanar with `x`, in
/// the order of the corners and of the lists.
fn push_coplanar_neighbors<C>(
    triangles: &[[u32; 3]],
    map: &[Vec<usize>],
    x: usize,
    visited: &Vec<bool>,
    queue: &mut Vec<usize>,
    coplanar: &C,
) where C: Fn(usize, usize) -> bool
    requires
        map_fits(triangles@, map@),
        x < triangles@.len(),
        visited@.len() == triangles@.len(),
        forall|a: usize, b: usize| coplanar.requires((a, b)),
    ensures
        final(queue)@.len() >= old(queue)@.len(),
        final(queue)@.subrange(0, old(queue)@.len() as int) == old(queue)@,
        forall|k: int|
            old(queue)@.len() <= k < final(queue)@.len() ==> #[trigger] final(queue)@[k] < triangles@.len() && listed_near(
                triangles@,
                map@,
                x as int,
                final(queue)@[k],
            ) && call_ensures(*coplanar, (x, final(queue)@[k]), true),
        forall|n: usize|
            #[trigger] listed_near(triangles@, map@, x as int, n) ==> visited@[n as int] || final(queue)@.contains(n)
                || call_ensures(*coplanar, (x, n), false),
{
    let ghost q0 = queue@;
    let tri = triangles[x];
    let mut c: usize = 0;
    while c < 3
        invariant
            c <= 3,
            tri == triangles@[x as int],
            map_fits(triangles@, map@),
            x < triangles@.len(),
            visited@.len() == triangles@.len(),
            forall|a: usize, b: usize| coplanar.requires((a, b)),
            queue@.len() >= q0.len(),
            queue@.subrange(0, q0.len() as int) == q0,
            forall|k: int|
                q0.len() <= k < queue@.len() ==> #[trigger] queue@[k] < triangles@.len() && listed_near(
                    triangles@,
                    map@,
                    x as int,
                    queue@[k],
                ) && call_ensures(*coplanar, (x, queue@[k]), true),
            forall|cc: int, j: int|
                0 <= cc < c && 0 <= j < map@[tri[cc] as int]@.len() ==> visited@[map@[tri[cc] as int]@[j] as int]
                    || queue@.contains(#[trigger] map@[tri[cc] as int]@[j]) || call_ensures(
                    *coplanar,
                    (x, map@[tri[cc] as int]@[j]),
                    false,
                ),
        decreases 3 - c,
    {
        let v = tri[c] as usize;
        assert(tri[c as int] < map@.len());
        let list = &map[v];
        let mut j: usize = 0;
        while j < list.len()
            invariant
                j <= list@.len(),
                c < 3,
                v == tri[c as int],
                *list == map@[v as int],
                tri == triangles@[x as int],
                map_fits(triangles@, map@),
                x < triangles@.len(),
                v < map@.len(),
                visited@.len() == triangles@.len(),
                forall|a: usize, b: usize| coplanar.requires((a, b)),
                queue@.len() >= q0.len(),
                queue@.subrange(0, q0.len() as int) == q0,
                forall|k: int|
                    q0.len() <= k < queue@.len() ==> #[trigger] queue@[k] < triangles@.len() && listed_near(
                        triangles@,
                        map@,
                        x as int,
                        queue@[k],
                    ) && call_ensures(*coplanar, (x, queue@[k]), true),
                forall|cc: int, jj: int|
                    0 <= cc < c && 0 <= jj < map@[tri[cc] as int]@.len() ==> visited@[map@[tri[cc] as int]@[jj] as int]
                        || queue@.contains(#[trigger] map@[tri[cc] as int]@[jj]) || call_ensures(
                        *coplanar,
                        (x, map@[tri[cc] as int]@[jj]),
                        false,
                    ),
                forall|jj: int|
                    0 <= jj < j ==> visited@[list@[jj] as int] || queue@.contains(#[trigger] list@[jj]) || call_ensures(
                        *coplanar,
                        (x, list@[jj]),
                        false,
                    ),
            decreases list@.len() - j,
        {
            let n = list[j];
            assert(n < triangles@.len());
            let ghost before = queue@;
            if !visited[n] && coplanar(x, n) {
                queue.push(n);
                proof {
                    assert(queue@[before.len() as int] == n);
                    assert(map@[triangles@[x as int][c as int] as int]@[j as int] == n);
                    assert(listed_near(triangles@, map@, x as int, n));
                    assert(queue@.subrange(0, q0.len() as int) =~= before.subrange(0, q0.len() as int));
                    assert forall|y: usize| before.contains(y) implies queue@.contains(y) by {
                        let k = choose|k: int| 0 <= k < before.len() && before[k] == y;
                        assert(queue@[k] == y);
                    }
                }
            }
            j = j + 1;
        }
        c = c + 1;
    }
    proof {
        assert forall|n: usize| #[trigger] listed_near(triangles@, map@, x as int, n) implies visited@[n as int] || queue@.contains(n)
            || call_ensures(*coplanar, (x, n), false) by {
            let (cc, j) = choose|cc: int, j: int|
                0 <= cc < 3 && 0 <= j < map@[triangles@[x as int][cc] as int]@.len() && #[trigger] map@[triangles@[x as int][cc] as int]@[j] == n;
            assert(map@[tri[cc] as int]@[j] == n);
        }
    }
}

/// Grows a group from triangle `t`: takes, again and again, a triangle
/// from the queue, and when it is not visited yet, visits it, puts it in
/// the group, and queues its unvisited neighbors that `coplanar` calls
/// coplanar with it. `owner` tells, for each visited triangle, its group
/// among `groups` and the new one, and its place there.
fn grow_group<C>(
    triangles: &[[u32; 3]],
    map: &[Vec<usize>],
    t: usize,
    visited: &mut Vec<bool>,
    Ghost(groups): Ghost<Seq<Vec<usize>>>,
    Ghost(owner): Ghost<Seq<Option<(int, int)>>>,
    coplanar: &C,
) -> (r: (Vec<usize>, Ghost<Seq<Option<(int, int)>>>)) where C: Fn(usize, usize) -> bool
    requires
        map_fits(triangles@, map@),
        forall|a: usize, b: usize| coplanar.requires((a, b)),
        t < triangles@.len(),
        old(visited)@.len() == triangles@.len(),
        owner.len() == triangles@.len(),
        !old(visited)@[t as int],
        forall|x: int| 0 <= x < t ==> #[trigger] old(visited)@[x],
        forall|x: int| 0 <= x < triangles@.len() ==> (#[trigger] old(visited)@[x] <==> owner[x] is Some),
        forall|x: int|
            0 <= x < triangles@.len() && #[trigger] owner[x] is Some ==> {
                let (h, k) = owner[x]->0;
                0 <= h < groups.len() && 0 <= k < groups[h]@.len() && groups[h]@[k] == x
            },
    ensures
        ({
            let (group, own) = (r.0, r.1@);
            let g = groups.len() as int;
            let n = triangles@.len();
            &&& final(visited)@.len() == n
            &&& own.len() == n
            &&& group@.len() > 0
            &&& group@[0] == t
            &&& forall|k: int| 0 <= k < group@.len() ==> #[trigger] group@[k] < n && group@[k] >= t && own[group@[k] as int] == Some((g, k))
            &&& forall|x: int| 0 <= x < n ==> (#[trigger] final(visited)@[x] <==> own[x] is Some)
            &&& forall|x: int|
                0 <= x < n && #[trigger] own[x] is Some ==> {
                    let (h, k) = own[x]->0;
                    ||| 0 <= h < g && 0 <= k < groups[h]@.len() && groups[h]@[k] == x
                    ||| h == g && 0 <= k < group@.len() && group@[k] == x
                }
            &&& forall|x: int| 0 <= x < n && #[trigger] old(visited)@[x] ==> final(visited)@[x] && own[x] == owner[x]
            &&& forall|k: int, m: usize|
                0 <= k < group@.len() && #[trigger] listed_near(triangles@, map@, group@[k] as int, m) ==> final(visited)@[m as int]
                    || call_ensures(*coplanar, (group@[k], m), false)
            &&& forall|k: int| 0 < k < group@.len() ==> reached_within(triangles@, map@, *coplanar, group@, k, #[trigger] group@[k])
        }),
{
    let n = triangles.len();
    let ghost g = groups.len() as int;
    let ghost visited0 = visited@;
    let ghost mut own = owner;
    let mut group: Vec<usize> = Vec::new();
    let mut queue: Vec<usize> = Vec::new();
    queue.push(t);
    loop
        invariant_except_break
            group@.len() == 0 ==> queue@ == seq![t] && visited@ == visited0 && own == owner,
        invariant
            n == triangles@.len(),
            map_fits(triangles@, map@),
            forall|a: usize, b: usize| coplanar.requires((a, b)),
            t < n,
            visited0 == old(visited)@,
            !visited0[t as int],
            visited@.len() == n,
            own.len() == n,
            g == groups.len(),
            forall|x: int| 0 <= x < n ==> (#[trigger] visited@[x] <==> own[x] is Some),
            forall|x: int|
                0 <= x < n && #[trigger] own[x] is Some ==> {
                    let (h, k) = own[x]->0;
                    ||| 0 <= h < g && 0 <= k < groups[h]@.len() && groups[h]@[k] == x
                    ||| h == g && 0 <= k < group@.len() && group@[k] == x
                },
            forall|k: int| 0 <= k < group@.len() ==> #[trigger] group@[k] < n && group@[k] >= t && own[group@[k] as int] == Some((g, k)),
            group@.len() > 0 ==> group@[0] == t,
            forall|x: int| 0 <= x < n && #[trigger] visited0[x] ==> visited@[x] && own[x] == owner[x],
            forall|x: int| 0 <= x < t ==> #[trigger] visited0[x],
            forall|x: int| 0 <= x < n ==> (#[trigger] visited0[x] <==> owner[x] is Some),
            forall|k: int| 0 <= k < queue@.len() ==> #[trigger] queue@[k] < n,
            forall|k: int, m: usize|
                0 <= k < group@.len() && #[trigger] listed_near(triangles@, map@, group@[k] as int, m) ==> visited@[m as int]
                    || queue@.contains(m) || call_ensures(*coplanar, (group@[k], m), false),
            forall|k: int| 0 < k < group@.len() ==> reached_within(triangles@, map@, *coplanar, group@, k, #[trigger] group@[k]),
            forall|k: int|
                0 <= k < queue@.len() && group@.len() > 0 ==> reached_within(
                    triangles@,
                    map@,
                    *coplanar,
                    group@,
                    group@.len() as int,
                    #[trigger] queue@[k],
                ),
        ensures
            queue@.len() == 0,
            group@.len() > 0,
        decreases count_false(visited@), queue@.len(),
    {
        let ghost q = queue@;
        let x = match queue.pop() {
            Some(x) => x,
            None => {
                break;
            },
        };
        proof {
            assert(x == q.last());
            assert(queue@ == q.drop_last());
            assert forall|m: usize| q.contains(m) && m != x implies queue@.contains(m) by {
                let k = choose|k: int| 0 <= k < q.len() && q[k] == m;
                assert(k < q.len() - 1);
                assert(queue@[k] == m);
            }
        }
        if visited[x] {
            continue;
        }
        let ghost vis = visited@;
        proof {
            lemma_count_false_set(vis, x as int);
        }
        visited.set(x, true);
        proof {
            assert(!visited0[x as int]);
            own = own.update(x as int, Some((g, group@.len() as int)));
        }
        let ghost g_old = group@;
        group.push(x);
        proof {
            assert(group@ == g_old.push(x));
            if g_old.len() > 0 {
                assert(q[q.len() - 1] == x);
            }
            assert forall|k: int| 0 < k < group@.len() implies reached_within(triangles@, map@, *coplanar, group@, k, #[trigger] group@[k]) by {
                if k < g_old.len() {
                    lemma_reached_push(triangles@, map@, *coplanar, g_old, k, k, g_old[k], x);
                } else {
                    lemma_reached_push(triangles@, map@, *coplanar, g_old, g_old.len() as int, k, x, x);
                }
            }
            assert forall|k: int| 0 <= k < queue@.len() implies reached_within(
                triangles@,
                map@,
                *coplanar,
                group@,
                group@.len() as int,
                #[trigger] queue@[k],
            ) by {
                assert(queue@[k] == q[k]);
                lemma_reached_push(triangles@, map@, *coplanar, g_old, g_old.len() as int, group@.len() as int, queue@[k], x);
            }
        }
        let ghost q1 = queue@;
        push_coplanar_neighbors(triangles, map, x, &visited, &mut queue, coplanar);
        proof {
            assert forall|k: int| 0 <= k < queue@.len() implies reached_within(
                triangles@,
                map@,
                *coplanar,
                group@,
                group@.len() as int,
                #[trigger] queue@[k],
            ) by {
                if k < q1.len() {
                    assert(queue@.subrange(0, q1.len() as int)[k] == q1[k]);
                } else {
                    let last = group@.len() - 1;
                    assert(group@[last] == x);
                    assert(call_ensures(*coplanar, (group@[last], queue@[k]), true));
                }
            }
            assert forall|k: int| 0 <= k < queue@.len() implies #[trigger] queue@[k] < n by {
                if k < q1.len() {
                    assert(queue@.subrange(0, q1.len() as int)[k] == q1[k]);
                }
            }
        }
    }
    (group, Ghost(own))
}

/// Groups the triangles: each triangle not grouped yet, in index order,
/// starts a group, which then takes, again and again, the triangles listed
/// in `map` at the corners of its triangles that `coplanar` calls coplanar
/// with the triangle they were found from. Every triangle ends in one
/// group, once; each group starts with its smallest triangle, and groups
/// come in the order of their first triangles; a triangle listed at a
/// corner of a triangle of a group is in that group or an earlier one,
/// unless `coplanar` called the two not coplanar; and each triangle of a
/// group after its first is listed at a corner of an earlier one, which
/// `coplanar` called coplanar with it.
pub fn find_coplanar_groups<C>(triangles: &[[u32; 3]], map: &[Vec<usize>], coplanar: &C) -> (groups: Vec<Vec<usize>>) where
    C: Fn(usize, usize) -> bool,

    requires
        map_fits(triangles@, map@),
        forall|a: usize, b: usize| coplanar.requires((a, b)),
    ensures
        forall|g: int| 0 <= g < groups@.len() ==> (#[trigger] groups@[g])@.len() > 0,
        forall|g: int, k: int|
            0 <= g < groups@.len() && 0 <= k < groups@[g]@.len() ==> #[trigger] groups@[g]@[k] < triangles@.len(),
        forall|t: usize| t < triangles@.len() ==> #[trigger] in_groups(groups@, groups@.len() as int, t),
        forall|g1: int, k1: int, g2: int, k2: int|
            0 <= g1 < groups@.len() && 0 <= k1 < groups@[g1]@.len() && 0 <= g2 < groups@.len() && 0 <= k2
                < groups@[g2]@.len() && #[trigger] groups@[g1]@[k1] == #[trigger] groups@[g2]@[k2] ==> g1 == g2 && k1 == k2,
        forall|g: int, k: int| 0 <= g < groups@.len() && 0 <= k < groups@[g]@.len() ==> groups@[g]@[0] <= #[trigger] groups@[g]@[k],
        forall|g1: int, g2: int| 0 <= g1 < g2 < groups@.len() ==> (#[trigger] groups@[g1])@[0] < (#[trigger] groups@[g2])@[0],
        forall|g: int, k: int, n: usize|
            0 <= g < groups@.len() && 0 <= k < groups@[g]@.len() && #[trigger] listed_near(
                triangles@,
                map@,
                groups@[g]@[k] as int,
                n,
            ) ==> in_groups(groups@, g + 1, n) || call_ensures(*coplanar, (groups@[g]@[k], n), false),
        forall|g: int, k: int|
            0 <= g < groups@.len() && 0 < k < groups@[g]@.len() ==> reached_within(
                triangles@,
                map@,
                *coplanar,
                groups@[g]@,
                k,
                #[trigger] groups@[g]@[k],
            ),
{
    let n = triangles.len();
    let mut visited: Vec<bool> = Vec::new();
    let mut i: usize = 0;
    while i < n
        invariant
            i <= n,
            visited@.len() == i,
            forall|x: int| 0 <= x < i ==> !(#[trigger] visited@[x]),
        decreases n - i,
    {
        visited.push(false);
        i = i + 1;
    }
    let ghost mut owner: Seq<Option<(int, int)>> = Seq::new(n as nat, |x: int| None);
    let mut groups: Vec<Vec<usize>> = Vec::new();
    let mut t: usize = 0;
    while t < n
        invariant
            t <= n,
            n == triangles@.len(),
            map_fits(triangles@, map@),
            forall|a: usize, b: usize| coplanar.requires((a, b)),
            visited@.len() == n,
            owner.len() == n,
            forall|x: int| 0 <= x < t ==> #[trigger] visited@[x],
            forall|x: int| 0 <= x < n ==> (#[trigger] visited@[x] <==> owner[x] is Some),
            forall|x: int|
                0 <= x < n && #[trigger] owner[x] is Some ==> {
                    let (g, k) = owner[x]->0;
                    0 <= g < groups@.len() && 0 <= k < groups@[g]@.len() && groups@[g]@[k] == x
                },
            forall|g: int| 0 <= g < groups@.len() ==> (#[trigger] groups@[g])@.len() > 0,
            forall|g: int, k: int|
                0 <= g < groups@.len() && 0 <= k < groups@[g]@.len() ==> #[trigger] groups@[g]@[k] < n && owner[groups@[g]@[k] as int]
                    == Some((g, k)),
            forall|g: int, k: int| 0 <= g < groups@.len() && 0 <= k < groups@[g]@.len() ==> groups@[g]@[0] <= #[trigger] groups@[g]@[k],
            forall|g: int| 0 <= g < groups@.len() ==> (#[trigger] groups@[g])@[0] < t,
            forall|g1: int, g2: int| 0 <= g1 < g2 < groups@.len() ==> (#[trigger] groups@[g1])@[0] < (#[trigger] groups@[g2])@[0],
            forall|g: int, k: int, m: usize|
                0 <= g < groups@.len() && 0 <= k < groups@[g]@.len() && #[trigger] listed_near(
                    triangles@,
                    map@,
                    groups@[g]@[k] as int,
                    m,
                ) ==> in_groups(groups@, g + 1, m) || call_ensures(*coplanar, (groups@[g]@[k], m), false),
            forall|g: int, k: int|
                0 <= g < groups@.len() && 0 < k < groups@[g]@.len() ==> reached_within(
                    triangles@,
                    map@,
                    *coplanar,
                    groups@[g]@,
                    k,
                    #[trigger] groups@[g]@[k],
                ),
        decreases n - t,
    {
        if visited[t] {
            t = t + 1;
            continue;
        }
        let ghost old_owner = owner;
        let ghost old_visited = visited@;
        let (group, Ghost(new_owner)) = grow_group(triangles, map, t, &mut visited, Ghost(groups@), Ghost(owner), coplanar);
        proof {
            owner = new_owner;
            assert(visited@[t as int]) by {
                assert(group@[0] == t);
                assert(owner[group@[0] as int] is Some);
            }
            assert forall|x: int| 0 <= x < t + 1 implies #[trigger] visited@[x] by {
                if x < t {
                    assert(old_visited[x]);
                }
            }
            assert forall|h: int, k: int| 0 <= h < groups@.len() && 0 <= k < groups@[h]@.len() implies #[trigger] groups@[h]@[k] < n
                && owner[groups@[h]@[k] as int] == Some((h, k)) by {
                let x = groups@[h]@[k];
                assert(old_owner[x as int] == Some((h, k)));
                assert(old_visited[x as int]);
            }
        }
        let ghost g = groups@.len() as int;
        let ghost before = groups@;
        groups.push(group);
        proof {
            assert forall|h: int, k: int| 0 <= h < groups@.len() && 0 < k < groups@[h]@.len() implies reached_within(
                triangles@,
                map@,
                *coplanar,
                groups@[h]@,
                k,
                #[trigger] groups@[h]@[k],
            ) by {
                if h < g {
                    assert(groups@[h] == before[h]);
                }
            }
            assert forall|h: int, k: int, m: usize|
                0 <= h < groups@.len() && 0 <= k < groups@[h]@.len() && #[trigger] listed_near(
                    triangles@,
                    map@,
                    groups@[h]@[k] as int,
                    m,
                ) implies in_groups(groups@, h + 1, m) || call_ensures(*coplanar, (groups@[h]@[k], m), false) by {
                if h < g {
                    assert(groups@[h] == before[h]);
                    if in_groups(before, h + 1, m) {
                        let (h2, k2) = choose|h2: int, k2: int| 0 <= h2 < h + 1 && 0 <= k2 < before[h2]@.len() && #[trigger] before[h2]@[k2] == m;
                        assert(groups@[h2] == before[h2]);
                    }
                } else {
                    if visited@[m as int] {
                        let (h2, k2) = owner[m as int]->0;
                        assert(groups@[h2]@[k2] == m);
                    }
                }
            }
        }
        t = t + 1;
    }
    proof {
        assert forall|x: usize| x < n implies #[trigger] in_groups(groups@, groups@.len() as int, x) by {
            assert(visited@[x as int]);
            let (g, k) = owner[x as int]->0;
            assert(groups@[g]@[k] == x);
        }
    }
    groups
}

} // verus!
