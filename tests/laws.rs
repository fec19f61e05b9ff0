use lard::ingest::{plan_kldata, admission, kldata_response, Admission, KldataResp};
use lard::error::Error;
use lard::kldata::{parse_kldata, ObsType};
use lard::obstime::ObsTime;
use lard::params::{load_registry, Param, ParamRegistry};
use lard::permissions::{build_permit_tables, timeseries_is_open, ParamPermit, ParamPermitTable, StationPermitTable};
use lard::query::{
    default_max_age, irregular_series, latest, parse_time_resolution, query_window, regular_series,
    timeslice, Cadence, EPOCH_1950,
};
use lard::store::{LabelKey, PlannedObs, SeriesStore};
use std::collections::HashMap;

fn registry() -> ParamRegistry {
    let mut reg = ParamRegistry::new();
    reg.insert("TA", Param::new(211, "air_temperature".to_string(), true));
    reg.insert("TGX", Param::new(225, "tgx".to_string(), true));
    reg
}

fn tables() -> (ParamPermitTable, StationPermitTable) {
    let mut params: ParamPermitTable = HashMap::new();
    params.insert(10, vec![ParamPermit::new(0, 211, 1), ParamPermit::new(0, 0, 2)]);
    params.insert(11, vec![ParamPermit::new(501, 0, 4)]);
    let mut stations: StationPermitTable = HashMap::new();
    stations.insert(10, 2);
    stations.insert(11, 1);
    stations.insert(20000, 2);
    stations.insert(20001, 1);
    (params, stations)
}

#[test]
fn permit_decision_table() {
    let (p, s) = tables();
    assert!(timeseries_is_open(&p, &s, 10, 501, 211));
    assert!(!timeseries_is_open(&p, &s, 10, 501, 212));
    assert!(!timeseries_is_open(&p, &s, 11, 501, 211));
    assert!(timeseries_is_open(&p, &s, 11, 502, 211));
    assert!(timeseries_is_open(&p, &s, 20001, 501, 211));
    assert!(!timeseries_is_open(&p, &s, 20000, 501, 211));
    assert!(!timeseries_is_open(&p, &s, 99, 501, 211));
}

#[test]
fn permit_tables_from_rows() {
    let (p, s) = build_permit_tables(&vec![(10, 0, 211, 1), (11, 501, 0, 4), (10, 0, 0, 2)], &vec![(10, 2), (11, 1), (10, 1)]);
    assert_eq!(p.get(&10).unwrap(), &vec![ParamPermit::new(0, 211, 1), ParamPermit::new(0, 0, 2)]);
    assert_eq!(p.get(&11).unwrap(), &vec![ParamPermit::new(501, 0, 4)]);
    assert_eq!(p.len(), 2);
    assert_eq!(s.get(&10), Some(&1));
    assert_eq!(s.get(&11), Some(&1));
}

fn t(h: u8) -> ObsTime {
    ObsTime::from_parts(2024, 1, 1, h, 0, 0).unwrap()
}

fn planned(station: i32, code: &str, h: u8, v: &str) -> PlannedObs {
    PlannedObs {
        key: LabelKey { station_id: station, type_id: 501, param_code: code.to_string(), sensor_and_level: None },
        param_id: 211,
        obstime: t(h),
        value: ObsType::Scalar(v.to_string()),
    }
}

#[test]
fn ingest_twice_changes_nothing() {
    let plan = vec![planned(20001, "TA", 1, "1.0"), planned(20001, "TA", 1, "2.0"), planned(20001, "TGX", 2, "3.0")];
    let mut store = SeriesStore::new();
    store.ingest_all(&plan);
    let labels = store.labels().len();
    let values = store.value_count();
    assert_eq!(labels, 2);
    assert_eq!(values, 2);
    store.ingest_all(&plan);
    assert_eq!(store.labels().len(), labels);
    assert_eq!(store.value_count(), values);
    let id = store.find_series(&plan[0].key).unwrap();
    assert_eq!(store.stored_value(id, t(1)), Some(&ObsType::Scalar("2.0".to_string())));
}

#[test]
fn one_label_per_key() {
    let plan = vec![planned(20001, "TA", 1, "1"), planned(20001, "TA", 2, "2"), planned(20002, "TA", 1, "3")];
    let mut store = SeriesStore::new();
    store.ingest_all(&plan);
    assert_eq!(store.labels().len(), 2);
    let a = store.find_series(&plan[0].key).unwrap();
    let b = store.find_series(&plan[2].key).unwrap();
    assert_ne!(a, b);
    assert_eq!(store.labels()[0].fromtime, t(1));
}

#[test]
fn closed_station_is_skipped() {
    let reg = registry();
    let (p, s) = tables();
    let (_, chunk) = parse_kldata("kldata/nationalnr=20000/type=501/messageid=1\nTA\n20240101010000,1", &reg).unwrap();
    let (plan, failure) = plan_kldata(&chunk, &reg, &p, &s);
    assert!(plan.is_empty());
    assert!(failure.is_none());
    assert_eq!(admission(&reg, &p, &s, 20000, 501, "TA"), Admission::Closed);
    assert_eq!(admission(&reg, &p, &s, 20001, 501, "TA"), Admission::Open(211));
    assert_eq!(admission(&reg, &p, &s, 20001, 501, "XX"), Admission::Unknown);
}

#[test]
fn unknown_code_fails_only_its_observation() {
    let reg = registry();
    let (p, s) = tables();
    let (_, chunk) = parse_kldata("kldata/nationalnr=20001/type=501/messageid=1\nXX,TA\n20240101010000,a,1", &reg).unwrap();
    let (plan, failure) = plan_kldata(&chunk, &reg, &p, &s);
    assert_eq!(plan.len(), 1);
    assert_eq!(plan[0].param_id, 211);
    assert_eq!(failure, Some(Error::Parse("unrecognised param_code XX".to_string())));
}

#[test]
fn response_for_results() {
    assert_eq!(
        kldata_response(&Ok(23)),
        KldataResp { message: String::new(), message_id: 23, res: 0, retry: false }
    );
    let r = kldata_response(&Err(Error::Parse("bad".to_string())));
    assert_eq!((r.res, r.retry, r.message_id, r.message.as_str()), (1, false, 0, "parse error: bad"));
    let r = kldata_response(&Err(Error::Database("down".to_string())));
    assert_eq!((r.res, r.retry), (1, true));
    assert_eq!(r.message, "postgres returned an error: down");
}

#[test]
fn regular_series_slots() {
    let obs = vec![(3600i64, 1u8), (7200, 2), (18000, 5)];
    let r = regular_series(&obs, 0, 18000, 3600);
    assert_eq!(r, vec![None, Some(1), Some(2), None, None, Some(5)]);
    assert_eq!(regular_series(&obs, 0, 18001, 3600).len(), 6);
    assert_eq!(regular_series(&obs, 10, 0, 60).len(), 0);
    let twelve = regular_series(&obs, 0, 11 * 3600, 3600);
    assert_eq!(twelve.len(), 12);
}

#[test]
fn time_resolution_whitelist() {
    assert_eq!(parse_time_resolution("PT1M").unwrap(), Cadence::Minute);
    assert_eq!(parse_time_resolution("PT1H").unwrap().seconds(), 3600);
    assert_eq!(parse_time_resolution("P1D").unwrap().seconds(), 86400);
    assert!(matches!(parse_time_resolution("PT2H"), Err(Error::Parse(_))));
}

#[test]
fn irregular_series_window() {
    let obs = vec![(5i64, 1u8), (10, 2), (15, 3), (20, 4)];
    assert_eq!(irregular_series(&obs, 10, 15), (vec![2, 3], vec![10, 15]));
}

#[test]
fn latest_shrinks_with_max_age() {
    let rows = vec![(1, 100i64, 'a'), (1, 300, 'b'), (2, 50, 'c'), (2, 40, 'd'), (3, 300, 'e'), (3, 300, 'f')];
    assert_eq!(latest(&rows, 200), vec![(1, 300, 'b'), (3, 300, 'e')]);
    assert_eq!(latest(&rows, 0), vec![(1, 300, 'b'), (2, 50, 'c'), (3, 300, 'e')]);
    assert_eq!(latest(&rows, 300), vec![]);
    assert_eq!(default_max_age(20000), 20000 - 3 * 3600);
}

#[test]
fn timeslice_rows() {
    let rows = vec![(3600i64, 211, 20001), (3600, 211, 20002), (3600, 212, 20003), (7200, 211, 20004)];
    assert_eq!(timeslice(&rows, 3600, 211), vec![20001, 20002]);
}

#[test]
fn window_defaults() {
    assert_eq!(query_window(None, None, None, None, 99), (EPOCH_1950, 99));
    assert_eq!(query_window(Some(1), None, Some(5), Some(6), 99), (1, 6));
}

#[test]
fn registry_from_csv_text() {
    let reg = load_registry("paramid,paramcode,elementid,scalar\n211,TA,air_temperature,t\n1088,KLOBS,klobs,f\n211,TA,air_temperature_2,t\n").unwrap();
    let p = reg.get_str("TA").unwrap();
    assert_eq!(p.id, 211);
    assert_eq!(p.element_id, "air_temperature_2");
    assert!(!reg.get_str("KLOBS").unwrap().is_scalar);
    assert!(reg.get_str("XX").is_none());
    assert!(matches!(load_registry("a,b,c,d\n1,TA,x,maybe\n"), Err(Error::Config(_))));
    assert!(matches!(load_registry("a,b,c,d\nx,TA,x,t\n"), Err(Error::Config(_))));
    assert!(matches!(load_registry("a,b,c,d\n1,TA\n"), Err(Error::Config(_))));
}

#[test]
fn irregular_series_of_forty_eight_rows() {
    let reg = registry();
    let mut body = String::from("kldata/nationalnr=20001/type=501/messageid=23\nTA,TGX\n");
    for h in 0..48u32 {
        body.push_str(&format!("202401{:02}{:02}0000,{},0\n", 1 + h / 24, h % 24, h));
    }
    let (_, chunk) = parse_kldata(&body, &reg).unwrap();
    let obs: Vec<(i64, u32)> = chunk.rows.iter().enumerate().map(|(k, _)| (k as i64 * 3600, k as u32)).collect();
    let (data, times) = irregular_series(&obs, 0, 47 * 3600);
    assert_eq!(chunk.rows.len(), 48);
    assert_eq!(data.len(), 48);
    assert_eq!(times[47], 47 * 3600);
}

#[test]
fn latest_window_counts() {
    let now = 1_700_000_000i64;
    let old = 1_577_836_800i64;
    let rows = vec![
        (1, now - 3600, 1u8),
        (2, now - 7200, 2),
        (3, old, 3),
        (4, old + 60, 4),
    ];
    assert_eq!(latest(&rows, default_max_age(now)).len(), 2);
    assert_eq!(latest(&rows, 1_546_300_800).len(), 4);
}

#[test]
fn batch_flows_into_store() {
    let reg = registry();
    let (p, s) = tables();
    let body = "kldata/nationalnr=20001/type=501/messageid=23\nTA,TGX\n20240101000000,1.5,2\n20240101010000,2.5,3\n";
    let (message_id, chunk) = parse_kldata(body, &reg).unwrap();
    let (plan, failure) = plan_kldata(&chunk, &reg, &p, &s);
    assert!(failure.is_none());
    assert_eq!(plan.len(), 4);
    let mut store = SeriesStore::new();
    store.ingest_all(&plan);
    store.ingest_all(&plan);
    assert_eq!(store.labels().len(), 2);
    assert_eq!(store.value_count(), 4);
    assert_eq!(kldata_response(&Ok(message_id)).message_id, 23);
}
