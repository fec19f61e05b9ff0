use std::collections::HashMap;
use vstd::prelude::*;

verus! {

broadcast use vstd::std_specs::hash::group_hash_axioms;

/// A policy entry overriding the station default for some types and
/// parameters of one station. A zero `type_id` or `param_id` matches any.
#[derive(Debug, Clone, Copy, PartialEq, Eq)]
pub struct ParamPermit {
    pub type_id: i32,
    pub param_id: i32,
    pub permit_id: i32,
}

impl ParamPermit {
    pub fn new(type_id: i32, param_id: i32, permit_id: i32) -> (r: ParamPermit)
        ensures
            r.type_id == type_id,
            r.param_id == param_id,
            r.permit_id == permit_id,
    {
        ParamPermit { type_id, param_id, permit_id }
    }
}

/// The permit id that marks data as open.
pub const OPEN_PERMIT: i32 = 1;

/// Per-station lists of parameter permits, checked before the station default.
pub type ParamPermitTable = HashMap<i32, Vec<ParamPermit>>;

/// Default permit id of each station.
pub type StationPermitTable = HashMap<i32, i32>;

/// Whether `permit` applies to a series of the given type and parameter.
pub open spec fn permit_matches(permit: ParamPermit, type_id: i32, param_id: i32) -> bool {
    (permit.type_id == 0 || permit.type_id == type_id) && (permit.param_id == 0
        || permit.param_id == param_id)
}

/// The first permit of `list` that applies, if any.
pub open spec fn first_match(list: Seq<ParamPermit>, type_id: i32, param_id: i32) -> Option<
    ParamPermit,
>
    decreases list.len(),
{
    if list.len() == 0 {
        None
    } else if permit_matches(list[0], type_id, param_id) {
        Some(list[0])
    } else {
        first_match(list.skip(1), type_id, param_id)
    }
}

/// The decision table of the permit cache: a matching parameter permit
/// decides first, then the station default, and a station known to neither
/// table is closed.
pub open spec fn is_open_spec(
    params: Map<i32, Vec<ParamPermit>>,
    stations: Map<i32, i32>,
    station_id: i32,
    type_id: i32,
    param_id: i32,
) -> bool {
    let from_params = if params.contains_key(station_id) {
        first_match(params[station_id]@, type_id, param_id)
    } else {
        None
    };
    match from_params {
        Some(p) => p.permit_id == OPEN_PERMIT,
        None => stations.contains_key(station_id) && stations[station_id] == OPEN_PERMIT,
    }
}

proof fn lemma_first_match_prefix(list: Seq<ParamPermit>, i: int, type_id: i32, param_id: i32)
    requires
        0 <= i < list.len(),
        forall|j: int| 0 <= j < i ==> !permit_matches(#[trigger] list[j], type_id, param_id),
    ensures
        first_match(list, type_id, param_id) == first_match(list.skip(i), type_id, param_id),
    decreases i,
{
    if i == 0 {
        assert(list.skip(0) =~= list);
    } else {
        assert(!permit_matches(list[0], type_id, param_id));
        assert(list.skip(1).skip(i - 1) =~= list.skip(i));
        assert forall|j: int| 0 <= j < i - 1 implies !permit_matches(
            #[trigger] list.skip(1)[j],
            type_id,
            param_id,
        ) by {
            assert(list.skip(1)[j] == list[j + 1]);
        }
        lemma_first_match_prefix(list.skip(1), i - 1, type_id, param_id);
    }
}

proof fn lemma_first_match_none(list: Seq<ParamPermit>, type_id: i32, param_id: i32)
    requires
        forall|j: int|
            0 <= j < list.len() ==> !permit_matches(#[trigger] list[j], type_id, param_id),
    ensures
        first_match(list, type_id, param_id) is None,
    decreases list.len(),
{
    if list.len() > 0 {
        assert forall|j: int| 0 <= j < list.len() - 1 implies !permit_matches(
            #[trigger] list.skip(1)[j],
            type_id,
            param_id,
        ) by {
            assert(list.skip(1)[j] == list[j + 1]);
        }
        lemma_first_match_none(list.skip(1), type_id, param_id);
    }
}

/// Using cached permits, check whether a given series is open data.
pub fn timeseries_is_open(
    param_permits: &ParamPermitTable,
    station_permits: &StationPermitTable,
    station_id: i32,
    type_id: i32,
    param_id: i32,
) -> (r: bool)
    ensures
        r == is_open_spec(param_permits@, station_permits@, station_id, type_id, param_id),
{
    if let Some(list) = param_permits.get(&station_id) {
        let mut i: usize = 0;
        while i < list.len()
            invariant
                0 <= i <= list.len(),
                param_permits@.contains_key(station_id),
                param_permits@[station_id] == *list,
                forall|j: int|
                    0 <= j < i ==> !permit_matches(#[trigger] list@[j], type_id, param_id),
            decreases list.len() - i,
        {
            let permit = list[i];
            if (permit.type_id == 0 || permit.type_id == type_id) && (permit.param_id == 0
                || permit.param_id == param_id) {
                proof {
                    lemma_first_match_prefix(list@, i as int, type_id, param_id);
                    assert(list@.skip(i as int)[0] == permit);
                }
                return permit.permit_id == OPEN_PERMIT;
            }
            i += 1;
        }
        proof {
            lemma_first_match_none(list@, type_id, param_id);
        }
    }
    match station_permits.get(&station_id) {
        Some(permit) => *permit == OPEN_PERMIT,
        None => false,
    }
}

/// A matching parameter permit decides alone: the station defaults then do
/// not matter. Without one, the station default decides, and a station in
/// neither table is closed.
pub proof fn lemma_param_permit_precedence(
    params: Map<i32, Vec<ParamPermit>>,
    stations1: Map<i32, i32>,
    stations2: Map<i32, i32>,
    station_id: i32,
    type_id: i32,
    param_id: i32,
)
    ensures
        params.contains_key(station_id) && first_match(params[station_id]@, type_id, param_id) is Some
            ==> is_open_spec(params, stations1, station_id, type_id, param_id) == is_open_spec(
            params,
            stations2,
            station_id,
            type_id,
            param_id,
        ),
        !(params.contains_key(station_id) && first_match(params[station_id]@, type_id, param_id) is Some)
            ==> is_open_spec(params, stations1, station_id, type_id, param_id) == (
            stations1.contains_key(station_id) && stations1[station_id] == OPEN_PERMIT),
{
}

/// The parameter permits that rows of (station, type, parameter, permit)
/// give: each station's permits in row order.
pub open spec fn param_table_of(rows: Seq<(i32, i32, i32, i32)>) -> Map<i32, Seq<ParamPermit>>
    decreases rows.len(),
{
    if rows.len() == 0 {
        Map::empty()
    } else {
        let m = param_table_of(rows.drop_last());
        let r = rows.last();
        let p = ParamPermit { type_id: r.1, param_id: r.2, permit_id: r.3 };
        m.insert(
            r.0,
            if m.contains_key(r.0) {
                m[r.0].push(p)
            } else {
                seq![p]
            },
        )
    }
}

/// The station permits that rows of (station, permit) give; a later row
/// for a station overrides an earlier one.
pub open spec fn station_table_of(rows: Seq<(i32, i32)>) -> Map<i32, i32>
    decreases rows.len(),
{
    if rows.len() == 0 {
        Map::empty()
    } else {
        station_table_of(rows.drop_last()).insert(rows.last().0, rows.last().1)
    }
}

/// Whether a permit table holds, for each station, the given permits.
pub open spec fn param_table_matches(t: Map<i32, Vec<ParamPermit>>, m: Map<i32, Seq<ParamPermit>>) -> bool {
    &&& t.dom() == m.dom()
    &&& forall|k: i32| #[trigger] t.contains_key(k) ==> t[k]@ == m[k]
}

/// Builds fresh permit tables from the rows of the policy views.
pub fn build_permit_tables(param_rows: &Vec<(i32, i32, i32, i32)>, station_rows: &Vec<(i32, i32)>) -> (r: (
    ParamPermitTable,
    StationPermitTable,
))
    ensures
        param_table_matches(r.0@, param_table_of(param_rows@)),
        r.1@ == station_table_of(station_rows@),
{
    let mut params: ParamPermitTable = HashMap::new();
    let mut i: usize = 0;
    assert(param_rows@.take(0) =~= Seq::<(i32, i32, i32, i32)>::empty());
    assert(params@.dom() =~= Set::<i32>::empty());
    while i < param_rows.len()
        invariant
            0 <= i <= param_rows@.len(),
            param_table_matches(params@, param_table_of(param_rows@.take(i as int))),
        decreases param_rows@.len() - i,
    {
        let (station, type_id, param_id, permit_id) = param_rows[i];
        let ghost m0 = param_table_of(param_rows@.take(i as int));
        assert(param_rows@.take(i as int + 1).drop_last() =~= param_rows@.take(i as int));
        assert(param_rows@.take(i as int + 1).last() == param_rows@[i as int]);
        let ghost before = params@;
        let mut list = match params.remove(&station) {
            Some(l) => l,
            None => Vec::new(),
        };
        let p = ParamPermit { type_id, param_id, permit_id };
        list.push(p);
        params.insert(station, list);
        proof {
            let m1 = param_table_of(param_rows@.take(i as int + 1));
            assert(params@.dom() =~= m1.dom());
            assert forall|k: i32| #[trigger] params@.contains_key(k) implies params@[k]@ == m1[k] by {
                if k != station {
                    assert(params@[k] == before[k]);
                }
            }
        }
        i += 1;
    }
    assert(param_rows@.take(param_rows@.len() as int) =~= param_rows@);
    let mut stations: StationPermitTable = HashMap::new();
    let mut j: usize = 0;
    assert(station_rows@.take(0) =~= Seq::<(i32, i32)>::empty());
    assert(stations@ =~= Map::<i32, i32>::empty());
    while j < station_rows.len()
        invariant
            0 <= j <= station_rows@.len(),
            stations@ == station_table_of(station_rows@.take(j as int)),
        decreases station_rows@.len() - j,
    {
        assert(station_rows@.take(j as int + 1).drop_last() =~= station_rows@.take(j as int));
        assert(station_rows@.take(j as int + 1).last() == station_rows@[j as int]);
        let (station, permit) = station_rows[j];
        stations.insert(station, permit);
        j += 1;
    }
    assert(station_rows@.take(station_rows@.len() as int) =~= station_rows@);
    (params, stations)
}

} // verus!
