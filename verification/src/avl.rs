//! Vehicle positions (AVL): when each row was recorded, grouped by vehicle.

use vstd::prelude::*;

use crate::dates::{chrono_parse_datetime, parse_datetime_with};
use crate::error::LoadError;
use crate::model::VehicleName;
use crate::text::{
    has_key, list_at, list_at_index, list_at_insert, list_at_update, search_sorted, strictly_sorted, text_lt,
    TextKeyed,
};
use crate::time::Time;

verus! {

/// One row of a vehicle position file, as far as the library reads it: the vehicle and when the
/// position was recorded. The position itself stays with the caller, found again by the row's
/// index.
pub struct AvlRecord {
    pub vehicle_name: String,
    pub datetime: String,
}

/// The format of the position files' dates and times.
pub open spec fn avl_format() -> Seq<char> {
    "%Y-%m-%d %H:%M:%S"@
}

/// What `chrono` reads from a row's date and time: day number, hour, minute and second.
pub open spec fn avl_reading(r: AvlRecord) -> Option<(int, int, int, int)> {
    chrono_parse_datetime(r.datetime@, avl_format())
}

/// The time of day of a reading; the date is left out.
pub open spec fn time_of_day(t: (int, int, int, int)) -> Time {
    Time(((t.1 * 3600 + t.2 * 60 + t.3) * 1000) as u32)
}

/// The rows of vehicle `name`, in row order: each row's index and its time of day.
pub open spec fn rows_of_vehicle(records: Seq<AvlRecord>, name: Seq<char>) -> Seq<(usize, Time)>
    decreases records.len(),
{
    if records.len() == 0 {
        Seq::empty()
    } else if records.last().vehicle_name@ == name {
        rows_of_vehicle(records.drop_last(), name).push(
            ((records.len() - 1) as usize, time_of_day(avl_reading(records.last())->Some_0)),
        )
    } else {
        rows_of_vehicle(records.drop_last(), name)
    }
}

/// Vehicle `name` has an entry.
pub open spec fn lists_vehicle(per_vehicle: Seq<(VehicleName, Vec<(usize, Time)>)>, name: Seq<char>) -> bool {
    exists|k: int| 0 <= k < per_vehicle.len() && (#[trigger] per_vehicle[k]).0.0@ == name
}

/// Every row's vehicle has at least that row.
proof fn row_in_its_vehicle(records: Seq<AvlRecord>, i: int)
    requires
        0 <= i < records.len(),
    ensures
        rows_of_vehicle(records, records[i].vehicle_name@).len() > 0,
    decreases records.len(),
{
    if i < records.len() - 1 {
        assert(records.drop_last()[i] == records[i]);
        row_in_its_vehicle(records.drop_last(), i);
    }
}

/// Reads the time of every row, keeping only the time of day, and groups the rows by vehicle:
/// vehicles in increasing order of name, each with its rows' indices and times in row order.
/// Fails at the first row whose date and time do not read as `%Y-%m-%d %H:%M:%S`.
pub fn load(records: &Vec<AvlRecord>) -> (r: Result<Vec<(VehicleName, Vec<(usize, Time)>)>, LoadError>)
    ensures
        match r {
            Ok(per_vehicle) => {
                &&& forall|i: int| 0 <= i < records@.len() ==> (#[trigger] avl_reading(records@[i])) is Some
                &&& forall|a: int, b: int|
                    0 <= a < b < per_vehicle@.len() ==> text_lt(
                        (#[trigger] per_vehicle@[a]).0.0@,
                        (#[trigger] per_vehicle@[b]).0.0@,
                    )
                &&& forall|k: int|
                    0 <= k < per_vehicle@.len() ==> (#[trigger] per_vehicle@[k]).1@ == rows_of_vehicle(
                        records@,
                        per_vehicle@[k].0.0@,
                    ) && per_vehicle@[k].1@.len() > 0
                &&& forall|i: int|
                    0 <= i < records@.len() ==> lists_vehicle(per_vehicle@, (#[trigger] records@[i]).vehicle_name@)
            },
            Err(e) => exists|i: int|
                0 <= i < records@.len() && avl_reading(records@[i]) is None && e == LoadError::BadDateTime(
                    records@[i].datetime,
                ) && forall|j: int| 0 <= j < i ==> (#[trigger] avl_reading(records@[j])) is Some,
        },
{
    let mut per: Vec<(String, Vec<(usize, Time)>)> = Vec::new();
    let mut i: usize = 0;
    while i < records.len()
        invariant
            i <= records@.len(),
            forall|j: int| 0 <= j < i ==> (#[trigger] avl_reading(records@[j])) is Some,
            strictly_sorted(per@),
            forall|k: int| 0 <= k < per@.len() ==> (#[trigger] per@[k]).1@.len() > 0,
            forall|name: Seq<char>| #[trigger] list_at(per@, name) == rows_of_vehicle(records@.take(i as int), name),
        decreases records@.len() - i,
    {
        let r = &records[i];
        let (_, h, m, s) = match parse_datetime_with(r.datetime.as_str(), "%Y-%m-%d %H:%M:%S") {
            Some(x) => x,
            None => {
                proof {
                    reveal_strlit("%Y-%m-%d %H:%M:%S");
                }
                return Err(LoadError::BadDateTime(r.datetime.clone()));
            },
        };
        proof {
            reveal_strlit("%Y-%m-%d %H:%M:%S");
        }
        let row = (i, Time((h * 3600 + m * 60 + s) * 1000));
        let ghost before = per@;
        let ghost prefix = records@.take(i as int);
        proof {
            assert(records@.take(i + 1).drop_last() =~= prefix);
            assert(records@.take(i + 1).last() == records@[i as int]);
            assert(row == ((i as int) as usize, time_of_day(avl_reading(records@[i as int])->Some_0)));
        }
        match search_sorted(&per, r.vehicle_name.as_str()) {
            Ok(q) => {
                proof {
                    list_at_index(before, q as int);
                }
                per[q].1.push(row);
                proof {
                    assert(per@ =~= before.update(q as int, per@[q as int]));
                    list_at_update(before, q as int, per@[q as int]);
                }
            },
            Err(q) => {
                let mut list: Vec<(usize, Time)> = Vec::new();
                list.push(row);
                let entry = (r.vehicle_name.clone(), list);
                proof {
                    list_at_insert(before, q as int, entry);
                    assert(entry.1@ =~= Seq::<(usize, Time)>::empty().push(row));
                }
                per.insert(q, entry);
            },
        }
        proof {
            assert forall|k: int| 0 <= k < per@.len() implies (#[trigger] per@[k]).1@.len() > 0 by {
                if per@[k].0@ != r.vehicle_name@ {
                    list_at_index(per@, k);
                    if has_key(before, per@[k].0@) {
                        let p = choose|p: int| 0 <= p < before.len() && #[trigger] before[p].key_text() == per@[k].0@;
                        list_at_index(before, p);
                    }
                } else {
                    list_at_index(per@, k);
                }
            }
            assert forall|name: Seq<char>| #[trigger] list_at(per@, name) == rows_of_vehicle(
                records@.take(i + 1),
                name,
            ) by {
                assert(list_at(before, name) == rows_of_vehicle(prefix, name));
            }
        }
        i += 1;
    }
    let ghost all = per@;
    proof {
        assert(records@.take(i as int) =~= records@);
    }
    let n = per.len();
    let mut out: Vec<(VehicleName, Vec<(usize, Time)>)> = Vec::new();
    let mut k: usize = 0;
    while k < n
        invariant
            n == all.len(),
            k <= n,
            strictly_sorted(all),
            per@ == all.subrange(k as int, n as int),
            out@.len() == k,
            forall|q: int| 0 <= q < k ==> (#[trigger] out@[q]).0.0 == all[q].0 && out@[q].1 == all[q].1,
        decreases n - k,
    {
        let (name, rows) = per.remove(0);
        proof {
            assert((name, rows) == all[k as int]);
            assert(per@ =~= all.subrange(k + 1, n as int));
        }
        out.push((VehicleName(name), rows));
        k += 1;
    }
    proof {
        assert forall|a: int, b: int| 0 <= a < b < out@.len() implies text_lt(
            (#[trigger] out@[a]).0.0@,
            (#[trigger] out@[b]).0.0@,
        ) by {
            assert(text_lt(all[a].key_text(), all[b].key_text()));
        }
        assert forall|q: int| 0 <= q < out@.len() implies (#[trigger] out@[q]).1@ == rows_of_vehicle(
            records@,
            out@[q].0.0@,
        ) && out@[q].1@.len() > 0 by {
            list_at_index(all, q);
        }
        assert forall|j: int| 0 <= j < records@.len() implies lists_vehicle(out@, (#[trigger] records@[j]).vehicle_name@) by {
            let name = records@[j].vehicle_name@;
            row_in_its_vehicle(records@, j);
            if !has_key(all, name) {
                assert(list_at(all, name) == Seq::<(usize, Time)>::empty());
            }
            let p = choose|p: int| 0 <= p < all.len() && #[trigger] all[p].key_text() == name;
            assert(out@[p].0.0@ == name);
        }
    }
    Ok(out)
}

} // verus!
