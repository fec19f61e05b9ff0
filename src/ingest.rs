use crate::error::Error;
use crate::kldata::{ids_view, ChunkView, IdView, ObsType, ObsinnChunk, RowView, ValueView};
use crate::obstime::ObsTime;
use crate::params::{registry_lookup, ParamRegistry, ParamView};
use crate::permissions::{is_open_spec, timeseries_is_open, ParamPermitTable, StationPermitTable, ParamPermit};
use crate::store::{KeyView, LabelKey, PlannedObs, PlannedView};
use crate::text::{chars_of, string_of};
use vstd::prelude::*;

verus! {

/// A value ready to be written: its series, its time, and the value.
#[derive(Clone, Debug, PartialEq, Eq)]
pub struct Datum {
    pub timeseries_id: i32,
    pub timestamp: ObsTime,
    pub value: ObsType,
}

/// What becomes of one observation before labelling.
#[derive(Clone, Copy, Debug, PartialEq, Eq, Structural)]
pub enum Admission {
    /// Its parameter code is not in the registry: the observation fails.
    Unknown,
    /// Its series is not open data: it is skipped without error.
    Closed,
    /// It goes on to labelling, with the registry's parameter id.
    Open(i32),
}

pub open spec fn admission_of(
    reg: Seq<(Seq<char>, ParamView)>,
    params: Map<i32, Vec<ParamPermit>>,
    stations: Map<i32, i32>,
    station_id: i32,
    type_id: i32,
    code: Seq<char>,
) -> Admission {
    match registry_lookup(reg, code) {
        None => Admission::Unknown,
        Some(p) => if is_open_spec(params, stations, station_id, type_id, p.id) {
            Admission::Open(p.id)
        } else {
            Admission::Closed
        },
    }
}

/// Looks the code up in the registry, then gates it through the permits.
pub fn admission(
    reg: &ParamRegistry,
    param_permits: &ParamPermitTable,
    station_permits: &StationPermitTable,
    station_id: i32,
    type_id: i32,
    code: &str,
) -> (r: Admission)
    ensures
        r == admission_of(reg@, param_permits@, station_permits@, station_id, type_id, code@),
{
    match reg.get_str(code) {
        None => Admission::Unknown,
        Some(p) => if timeseries_is_open(param_permits, station_permits, station_id, type_id, p.id) {
            Admission::Open(p.id)
        } else {
            Admission::Closed
        },
    }
}

/// The planned observations of the first `n` values of a row.
pub open spec fn row_plan(
    reg: Seq<(Seq<char>, ParamView)>,
    params: Map<i32, Vec<ParamPermit>>,
    stations: Map<i32, i32>,
    c: ChunkView,
    row: RowView,
    n: int,
) -> Seq<PlannedView>
    decreases n,
{
    if n <= 0 {
        Seq::empty()
    } else {
        let prev = row_plan(reg, params, stations, c, row, n - 1);
        let col = c.columns[n - 1];
        match admission_of(reg, params, stations, c.station_id, c.type_id, col.code) {
            Admission::Open(pid) => prev.push(
                PlannedView {
                    key: KeyView {
                        station_id: c.station_id,
                        type_id: c.type_id,
                        code: col.code,
                        sensor_and_level: col.sensor_and_level,
                    },
                    param_id: pid,
                    obstime: row.timestamp,
                    value: row.values[n - 1],
                },
            ),
            _ => prev,
        }
    }
}

/// The planned observations of the first `n` rows.
pub open spec fn chunk_plan(
    reg: Seq<(Seq<char>, ParamView)>,
    params: Map<i32, Vec<ParamPermit>>,
    stations: Map<i32, i32>,
    c: ChunkView,
    n: int,
) -> Seq<PlannedView>
    decreases n,
{
    if n <= 0 {
        Seq::empty()
    } else {
        chunk_plan(reg, params, stations, c, n - 1) + row_plan(
            reg,
            params,
            stations,
            c,
            c.rows[n - 1],
            c.rows[n - 1].values.len() as int,
        )
    }
}

/// Whether one of the first `n` columns has a code the registry lacks.
pub open spec fn columns_unknown(reg: Seq<(Seq<char>, ParamView)>, cols: Seq<IdView>, n: int) -> bool
    decreases n,
{
    if n <= 0 {
        false
    } else {
        columns_unknown(reg, cols, n - 1) || registry_lookup(reg, cols[n - 1].code) is None
    }
}

/// Whether a value of the first `n` rows stands in a column whose code the
/// registry lacks.
pub open spec fn chunk_unknown(reg: Seq<(Seq<char>, ParamView)>, c: ChunkView, n: int) -> bool
    decreases n,
{
    if n <= 0 {
        false
    } else {
        chunk_unknown(reg, c, n - 1) || columns_unknown(reg, c.columns, c.rows[n - 1].values.len() as int)
    }
}

pub open spec fn planned_view(plan: Seq<PlannedObs>) -> Seq<PlannedView> {
    plan.map_values(|o: PlannedObs| o@)
}

/// Decides, for each observation of a batch, whether it is labelled and
/// stored, skipped as closed data, or fails for an unknown parameter code.
/// Gives the observations to store, in order, and a parse error when some
/// observation failed.
pub fn plan_kldata(
    chunk: &ObsinnChunk,
    reg: &ParamRegistry,
    param_permits: &ParamPermitTable,
    station_permits: &StationPermitTable,
) -> (r: (Vec<PlannedObs>, Option<Error>))
    requires
        forall|i: int|
            0 <= i < chunk.rows@.len() ==> (#[trigger] chunk.rows@[i]).values@.len()
                <= chunk.columns@.len(),
    ensures
        planned_view(r.0@) == chunk_plan(
            reg@,
            param_permits@,
            station_permits@,
            chunk@,
            chunk@.rows.len() as int,
        ),
        r.1 is Some <==> chunk_unknown(reg@, chunk@, chunk@.rows.len() as int),
        r.1 is Some ==> r.1->0 is Parse,
{
    let ghost c = chunk@;
    let ghost pp = param_permits@;
    let ghost sp = station_permits@;
    let mut plan: Vec<PlannedObs> = Vec::new();
    let mut failure: Option<Error> = None;
    let mut i: usize = 0;
    while i < chunk.rows.len()
        invariant
            0 <= i <= chunk.rows@.len(),
            c == chunk@,
            pp == param_permits@,
            sp == station_permits@,
            forall|k: int|
                0 <= k < chunk.rows@.len() ==> (#[trigger] chunk.rows@[k]).values@.len()
                    <= chunk.columns@.len(),
            planned_view(plan@) == chunk_plan(reg@, pp, sp, c, i as int),
            failure is Some ==> failure->0 is Parse,
            failure is Some <==> chunk_unknown(reg@, c, i as int),
        decreases chunk.rows@.len() - i,
    {
        let row = &chunk.rows[i];
        let ghost rv = row@;
        assert(c.rows[i as int] == rv);
        let ghost base = planned_view(plan@);
        let mut j: usize = 0;
        while j < row.values.len()
            invariant
                0 <= j <= row.values@.len(),
                row.values@.len() <= chunk.columns@.len(),
                c == chunk@,
                rv == row@,
                pp == param_permits@,
                sp == station_permits@,
                planned_view(plan@) == base + row_plan(reg@, pp, sp, c, rv, j as int),
                failure is Some ==> failure->0 is Parse,
                failure is Some <==> (chunk_unknown(reg@, c, i as int) || columns_unknown(
                    reg@,
                    c.columns,
                    j as int,
                )),
            decreases row.values@.len() - j,
        {
            let col = &chunk.columns[j];
            assert(c.columns[j as int] == col@);
            assert(rv.values[j as int] == row.values@[j as int]@);
            match admission(reg, param_permits, station_permits, chunk.station_id, chunk.type_id, col.param_code.as_str()) {
                Admission::Open(pid) => {
                    let o = PlannedObs {
                        key: LabelKey {
                            station_id: chunk.station_id,
                            type_id: chunk.type_id,
                            param_code: col.param_code.clone(),
                            sensor_and_level: col.sensor_and_level,
                        },
                        param_id: pid,
                        obstime: row.timestamp,
                        value: row.values[j].copied(),
                    };
                    let ghost before = planned_view(plan@);
                    plan.push(o);
                    assert(planned_view(plan@) =~= before.push(o@));
                },
                Admission::Closed => {},
                Admission::Unknown => {
                    if failure.is_none() {
                        let mut msg = chars_of("unrecognised param_code ");
                        let code = chars_of(col.param_code.as_str());
                        let mut k: usize = 0;
                        while k < code.len()
                            decreases code@.len() - k,
                        {
                            msg.push(code[k]);
                            k += 1;
                        }
                        failure = Some(Error::Parse(string_of(msg.as_slice())));
                    }
                },
            }
            j += 1;
        }
        assert(chunk_plan(reg@, pp, sp, c, i as int + 1) == chunk_plan(reg@, pp, sp, c, i as int)
            + row_plan(reg@, pp, sp, c, rv, rv.values.len() as int));
        i += 1;
    }
    (plan, failure)
}

/// The reply a sender of a batch expects.
#[derive(Clone, Debug, PartialEq, Eq)]
pub struct KldataResp {
    /// What happened to the data, empty on success.
    pub message: String,
    /// The message id of the batch, or 0 when the batch failed.
    pub message_id: usize,
    /// 0 on success, 1 on failure.
    pub res: u8,
    /// Whether the sender should send the batch again.
    pub retry: bool,
}

/// The reply to a batch: success with its message id, or failure with the
/// error's description, to be retried unless the batch was ill-formed.
pub fn kldata_response(result: &Result<usize, Error>) -> (r: KldataResp)
    ensures
        match result {
            Ok(m) => r.res == 0 && r.message_id == *m && !r.retry && r.message@.len() == 0,
            Err(e) => r.res == 1 && r.message_id == 0 && r.retry == !(e is Parse)
                && r.message@ == e.describe_spec(),
        },
{
    match result {
        Ok(m) => KldataResp { message: String::new(), message_id: *m, res: 0, retry: false },
        Err(e) => KldataResp {
            message: e.describe(),
            message_id: 0,
            res: 1,
            retry: e.is_retryable(),
        },
    }
}

} // verus!
