//! Sharing roads among the route paths drawn over them: which paths cross each road, and which
//! piece of the road's width each path gets.

use vstd::prelude::*;

verus! {

/// A path over the street network: its identifier, and each road it takes with whether it runs
/// against the road's direction.
pub type RoadPath = (usize, Vec<(u64, bool)>);

/// The identifiers of the paths crossing `road`, path by path and, within a path, once per time
/// it takes the road.
pub open spec fn objects_on_road(paths: Seq<(usize, Seq<(u64, bool)>)>, road: u64) -> Seq<usize>
    decreases paths.len(),
{
    if paths.len() == 0 {
        Seq::empty()
    } else {
        objects_on_road(paths.drop_last(), road) + steps_on_road(paths.last().1, road).map_values(
            |s: (u64, bool)| paths.last().0,
        )
    }
}

/// The steps of a path on `road`.
pub open spec fn steps_on_road(steps: Seq<(u64, bool)>, road: u64) -> Seq<(u64, bool)>
    decreases steps.len(),
{
    if steps.len() == 0 {
        Seq::empty()
    } else if steps.last().0 == road {
        steps_on_road(steps.drop_last(), road).push(steps.last())
    } else {
        steps_on_road(steps.drop_last(), road)
    }
}

/// Paths as plain values.
pub open spec fn paths_view(paths: Seq<RoadPath>) -> Seq<(usize, Seq<(u64, bool)>)> {
    paths.map_values(|p: RoadPath| (p.0, p.1@))
}

/// Does some path take `road`?
pub open spec fn road_taken(paths: Seq<(usize, Seq<(u64, bool)>)>, road: u64) -> bool {
    objects_on_road(paths, road).len() > 0
}

/// Per road taken by some path, by increasing road, the paths crossing it (see
/// `objects_on_road`).
pub fn objects_per_road(paths: &Vec<RoadPath>) -> (r: Vec<(u64, Vec<usize>)>)
    ensures
        forall|a: int, b: int| 0 <= a < b < r@.len() ==> (#[trigger] r@[a]).0 < (#[trigger] r@[b]).0,
        forall|k: int|
            0 <= k < r@.len() ==> (#[trigger] r@[k]).1@ == objects_on_road(paths_view(paths@), r@[k].0) && r@[k].1@.len()
                > 0,
        forall|road: u64|
            #[trigger] road_taken(paths_view(paths@), road) ==> exists|k: int| 0 <= k < r@.len() && (#[trigger] r@[k]).0 == road,
{
    let ghost all = paths_view(paths@);
    let mut per: Vec<(u64, Vec<usize>)> = Vec::new();
    let mut p: usize = 0;
    proof {
        assert(paths_view(paths@).take(0) =~= Seq::<(usize, Seq<(u64, bool)>)>::empty());
    }
    while p < paths.len()
        invariant
            all == paths_view(paths@),
            p <= paths@.len(),
            per_road(per@, all.take(p as int)),
        decreases paths@.len() - p,
    {
        let id = paths[p].0;
        let steps = &paths[p].1;
        let ghost before_paths = all.take(p as int);
        let ghost path = all[p as int];
        let mut s: usize = 0;
        proof {
            assert(path.1 == steps@);
            assert(all.take(p + 1) =~= before_paths.push(path));
            assert forall|road: u64| #[trigger] objects_on_road(before_paths.push((id, steps@.take(0))), road)
                == objects_on_road(before_paths, road) by {
                assert(before_paths.push((id, steps@.take(0))).drop_last() =~= before_paths);
                assert(steps_on_road(steps@.take(0), road) =~= Seq::<(u64, bool)>::empty());
                assert(objects_on_road(before_paths, road) + Seq::<usize>::empty() =~= objects_on_road(before_paths, road));
            }
            per_road_same(per@, before_paths, before_paths.push((id, steps@.take(0))));
        }
        while s < steps.len()
            invariant
                s <= steps@.len(),
                per_road(per@, before_paths.push((id, steps@.take(s as int)))),
            decreases steps@.len() - s,
        {
            let road = steps[s].0;
            let ghost prev = before_paths.push((id, steps@.take(s as int)));
            let ghost next = before_paths.push((id, steps@.take(s + 1)));
            proof {
                objects_step(before_paths, id, steps@, s as int);
            }
            add_object(&mut per, road, id, Ghost(prev), Ghost(next));
            s += 1;
        }
        proof {
            assert(steps@.take(s as int) =~= steps@);
            assert(before_paths.push((id, steps@)) == all.take(p + 1));
        }
        p += 1;
    }
    proof {
        assert(all.take(p as int) =~= all);
    }
    per
}

/// The lists of `per` are those of the paths, by increasing road.
pub open spec fn per_road(per: Seq<(u64, Vec<usize>)>, paths: Seq<(usize, Seq<(u64, bool)>)>) -> bool {
    &&& forall|a: int, b: int| 0 <= a < b < per.len() ==> (#[trigger] per[a]).0 < (#[trigger] per[b]).0
    &&& forall|k: int|
        0 <= k < per.len() ==> (#[trigger] per[k]).1@ == objects_on_road(paths, per[k].0) && per[k].1@.len() > 0
    &&& forall|road: u64| #[trigger] road_taken(paths, road) ==> exists|k: int| 0 <= k < per.len() && (#[trigger] per[k]).0 == road
}

proof fn per_road_same(per: Seq<(u64, Vec<usize>)>, a: Seq<(usize, Seq<(u64, bool)>)>, b: Seq<(usize, Seq<(u64, bool)>)>)
    requires
        per_road(per, a),
        forall|road: u64| #[trigger] objects_on_road(b, road) == objects_on_road(a, road),
    ensures
        per_road(per, b),
{
    assert forall|road: u64| #[trigger] road_taken(b, road) implies exists|k: int| 0 <= k < per.len() && (#[trigger] per[k]).0 == road by {
        assert(road_taken(a, road));
    }
}

/// One more step of the current path adds its identifier to the list of the step's road only.
proof fn objects_step(before: Seq<(usize, Seq<(u64, bool)>)>, id: usize, steps: Seq<(u64, bool)>, s: int)
    requires
        0 <= s < steps.len(),
    ensures
        forall|road: u64|
            #[trigger] objects_on_road(before.push((id, steps.take(s + 1))), road) == if road == steps[s].0 {
                objects_on_road(before.push((id, steps.take(s))), road).push(id)
            } else {
                objects_on_road(before.push((id, steps.take(s))), road)
            },
{
    assert forall|road: u64|
        #[trigger] objects_on_road(before.push((id, steps.take(s + 1))), road) == if road == steps[s].0 {
            objects_on_road(before.push((id, steps.take(s))), road).push(id)
        } else {
            objects_on_road(before.push((id, steps.take(s))), road)
        } by {
        let short = steps.take(s);
        let long = steps.take(s + 1);
        assert(long =~= short.push(steps[s]));
        assert(before.push((id, long)).drop_last() =~= before);
        assert(before.push((id, short)).drop_last() =~= before);
        assert(long.drop_last() =~= short);
        let f = |x: (u64, bool)| id;
        if road == steps[s].0 {
            assert(steps_on_road(long, road) == steps_on_road(short, road).push(steps[s]));
            assert(steps_on_road(long, road).map_values(f) =~= steps_on_road(short, road).map_values(f).push(id));
            assert(objects_on_road(before, road) + steps_on_road(long, road).map_values(f) =~= (objects_on_road(
                before,
                road,
            ) + steps_on_road(short, road).map_values(f)).push(id));
        } else {
            assert(steps_on_road(long, road) == steps_on_road(short, road));
        }
    }
}

/// Adds `id` to the list of `road`, creating the list when the road has none.
fn add_object(
    per: &mut Vec<(u64, Vec<usize>)>,
    road: u64,
    id: usize,
    Ghost(prev): Ghost<Seq<(usize, Seq<(u64, bool)>)>>,
    Ghost(next): Ghost<Seq<(usize, Seq<(u64, bool)>)>>,
)
    requires
        per_road(old(per)@, prev),
        forall|r: u64|
            #[trigger] objects_on_road(next, r) == if r == road {
                objects_on_road(prev, r).push(id)
            } else {
                objects_on_road(prev, r)
            },
    ensures
        per_road(final(per)@, next),
{
    let ghost before = per@;
    let mut k: usize = 0;
    while k < per.len() && per[k].0 < road
        invariant
            k <= per@.len(),
            per@ == before,
            forall|q: int| 0 <= q < k ==> (#[trigger] per@[q]).0 < road,
        decreases per@.len() - k,
    {
        k += 1;
    }
    proof {
        assert(objects_on_road(next, road) == objects_on_road(prev, road).push(id));
        assert(road_taken(next, road));
    }
    if k < per.len() && per[k].0 == road {
        let mut list: Vec<usize> = Vec::new();
        std::mem::swap(&mut list, &mut per[k].1);
        list.push(id);
        per.set(k, (road, list));
        proof {
            assert forall|q: int| 0 <= q < per@.len() && q != k implies #[trigger] per@[q] == before[q] by {}
            assert forall|r: u64| #[trigger] road_taken(next, r) implies exists|q: int| 0 <= q < per@.len() && (#[trigger] per@[q]).0 == r by {
                if r != road {
                    assert(road_taken(prev, r));
                    let q = choose|q: int| 0 <= q < before.len() && (#[trigger] before[q]).0 == r;
                    assert(per@[q].0 == r);
                } else {
                    assert(per@[k as int].0 == r);
                }
            }
        }
    } else {
        proof {
            if road_taken(prev, road) {
                let q = choose|q: int| 0 <= q < before.len() && (#[trigger] before[q]).0 == road;
                if q < k {
                    assert(before[q].0 < road);
                } else {
                    assert(before[k as int].0 <= before[q].0);
                }
            }
            assert(objects_on_road(prev, road).len() == 0);
            assert(objects_on_road(prev, road).push(id) =~= seq![id]);
        }
        let mut list: Vec<usize> = Vec::new();
        list.push(id);
        per.insert(k, (road, list));
        proof {
            assert forall|a: int, b: int| 0 <= a < b < per@.len() implies (#[trigger] per@[a]).0 < (#[trigger] per@[b]).0 by {
                if b < k {
                    assert(per@[a] == before[a] && per@[b] == before[b]);
                } else if b == k {
                    assert(per@[a] == before[a]);
                } else if a < k {
                    assert(per@[a] == before[a] && per@[b] == before[b - 1]);
                } else if a == k {
                    assert(per@[b] == before[b - 1]);
                    if b - 1 > k {
                        assert(before[k as int].0 < before[b - 1].0);
                    }
                } else {
                    assert(per@[a] == before[a - 1] && per@[b] == before[b - 1]);
                }
            }
            assert forall|q: int| 0 <= q < per@.len() && q != k implies (#[trigger] per@[q]).1@ == objects_on_road(
                next,
                per@[q].0,
            ) && per@[q].1@.len() > 0 by {
                if q < k {
                    assert(per@[q] == before[q]);
                } else {
                    assert(per@[q] == before[q - 1]);
                }
            }
            assert forall|r: u64| #[trigger] road_taken(next, r) implies exists|q: int| 0 <= q < per@.len() && (#[trigger] per@[q]).0 == r by {
                if r != road {
                    assert(road_taken(prev, r));
                    let q = choose|q: int| 0 <= q < before.len() && (#[trigger] before[q]).0 == r;
                    if q < k {
                        assert(per@[q].0 == r);
                    } else {
                        assert(per@[q + 1].0 == r);
                    }
                } else {
                    assert(per@[k as int].0 == r);
                }
            }
        }
    }
}

/// Which piece of a road's width goes to path `id`: its first place in the road's list. The
/// path must be in the list.
pub fn piece_index(objects: &Vec<usize>, id: usize) -> (k: usize)
    requires
        objects@.contains(id),
    ensures
        k < objects@.len(),
        objects@[k as int] == id,
        forall|j: int| 0 <= j < k ==> objects@[j] != id,
{
    let mut k: usize = 0;
    while k < objects.len()
        invariant
            k <= objects@.len(),
            objects@.contains(id),
            forall|j: int| 0 <= j < k ==> objects@[j] != id,
        decreases objects@.len() - k,
    {
        if objects[k] == id {
            return k;
        }
        k += 1;
    }
    proof {
        let j = choose|j: int| 0 <= j < objects@.len() && objects@[j] == id;
        assert(objects@[j] != id);
    }
    k
}

} // verus!
