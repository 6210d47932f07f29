use vstd::prelude::*;

use crate::error::LoadError;
use crate::ids::{IDMapping, IdError, StopID};
use crate::orig;
use crate::routes::RouteVariantID;
use crate::text::copy_opt_text;

verus! {

/// A stop. Its position stays with the caller: `Stop` holds what the matching logic reads.
#[derive(Clone, Debug)]
pub struct Stop {
    pub id: StopID,
    pub orig_id: orig::StopID,
    pub code: Option<String>,
    pub name: Option<String>,
    pub description: Option<String>,
    /// The variants visiting this stop, in increasing order.
    pub route_variants: Vec<RouteVariantID>,
}

/// One row of `stops.txt`, without its coordinates.
pub struct StopRecord {
    pub stop_id: orig::StopID,
    pub stop_code: Option<String>,
    pub stop_name: Option<String>,
    pub stop_desc: Option<String>,
}

/// No two of the first `n` rows share an identifier.
pub open spec fn distinct_stop_ids(records: Seq<StopRecord>, n: int) -> bool {
    forall|a: int, b: int| 0 <= a < b < n ==> (#[trigger] records[a]).stop_id.0@ != (#[trigger] records[b]).stop_id.0@
}

/// Row `i` repeats the identifier of an earlier row.
pub open spec fn repeats_stop_id(records: Seq<StopRecord>, i: int) -> bool {
    exists|j: int| 0 <= j < i && (#[trigger] records[j]).stop_id.0@ == records[i].stop_id.0@
}

/// The stop read from row `i`.
pub open spec fn stop_from_record(s: Stop, r: StopRecord, i: int) -> bool {
    &&& s.id.0 == i
    &&& s.orig_id == r.stop_id
    &&& s.code == r.stop_code
    &&& s.name == r.stop_name
    &&& s.description == r.stop_desc
    &&& s.route_variants@.len() == 0
}

/// Reads the rows of `stops.txt`, in file order: stop `i` comes from row `i`, and the mapping
/// gives each input identifier its row. Fails at the first repeated identifier.
pub fn load(records: Vec<StopRecord>) -> (r: Result<(Vec<Stop>, IDMapping<orig::StopID, StopID>), LoadError>)
    ensures
        match r {
            Ok((stops, ids)) => {
                &&& distinct_stop_ids(records@, records@.len() as int)
                &&& stops@.len() == records@.len()
                &&& forall|i: int| 0 <= i < records@.len() ==> stop_from_record(#[trigger] stops@[i], records@[i], i)
                &&& ids.wf()
                &&& ids.count() == records@.len()
                &&& forall|t: Seq<char>|
                    ids.mapping().dom().contains(t) <==> exists|i: int|
                        0 <= i < records@.len() && (#[trigger] records@[i]).stop_id.0@ == t
                &&& forall|i: int| 0 <= i < records@.len() ==> ids.mapping()[(#[trigger] records@[i]).stop_id.0@] == i
            },
            Err(e) => exists|i: int|
                0 <= i < records@.len() && distinct_stop_ids(records@, i) && repeats_stop_id(records@, i) && e
                    == LoadError::Id(IdError::Duplicate(records@[i].stop_id.0)),
        },
{
    let mut stops: Vec<Stop> = Vec::new();
    let mut ids: IDMapping<orig::StopID, StopID> = IDMapping::new();
    let mut i: usize = 0;
    while i < records.len()
        invariant
            i <= records@.len(),
            ids.wf(),
            ids.count() == i,
            stops@.len() == i,
            distinct_stop_ids(records@, i as int),
            forall|k: int| 0 <= k < i ==> stop_from_record(#[trigger] stops@[k], records@[k], k),
            forall|t: Seq<char>|
                ids.mapping().dom().contains(t) <==> exists|k: int| 0 <= k < i && (#[trigger] records@[k]).stop_id.0@ == t,
            forall|k: int| 0 <= k < i ==> ids.mapping()[(#[trigger] records@[k]).stop_id.0@] == k,
        decreases records@.len() - i,
    {
        let rec = &records[i];
        let ghost before = ids.mapping();
        match ids.insert_new(orig::StopID(rec.stop_id.0.clone())) {
            Ok(id) => {
                proof {
                    assert forall|a: int, b: int| 0 <= a < b < i + 1 implies (#[trigger] records@[a]).stop_id.0@
                        != (#[trigger] records@[b]).stop_id.0@ by {
                        if b == i {
                            assert(before.dom().contains(records@[a].stop_id.0@));
                        }
                    }
                    assert forall|t: Seq<char>|
                        ids.mapping().dom().contains(t) <==> exists|k: int|
                            0 <= k < i + 1 && (#[trigger] records@[k]).stop_id.0@ == t by {
                        if ids.mapping().dom().contains(t) && t != rec.stop_id.0@ {
                            assert(before.dom().contains(t));
                        }
                        if t == rec.stop_id.0@ {
                            assert(records@[i as int].stop_id.0@ == t);
                        }
                    }
                    assert forall|k: int| 0 <= k < i + 1 implies ids.mapping()[(#[trigger] records@[k]).stop_id.0@] == k by {
                        if k < i {
                            assert(records@[k].stop_id.0@ != rec.stop_id.0@);
                        }
                    }
                }
                let stop = Stop {
                    id,
                    orig_id: orig::StopID(rec.stop_id.0.clone()),
                    code: copy_opt_text(&rec.stop_code),
                    name: copy_opt_text(&rec.stop_name),
                    description: copy_opt_text(&rec.stop_desc),
                    route_variants: Vec::new(),
                };
                stops.push(stop);
                proof {
                    assert forall|k: int| 0 <= k < i + 1 implies stop_from_record(#[trigger] stops@[k], records@[k], k) by {
                        if k == i {
                            assert(stops@[k] == stop);
                        }
                    }
                }
            },
            Err(_) => {
                proof {
                    let k = choose|k: int| 0 <= k < i && (#[trigger] records@[k]).stop_id.0@ == rec.stop_id.0@;
                    assert(repeats_stop_id(records@, i as int));
                }
                return Err(LoadError::Id(IdError::Duplicate(rec.stop_id.0.clone())));
            },
        }
        i += 1;
    }
    Ok((stops, ids))
}

} // verus!
