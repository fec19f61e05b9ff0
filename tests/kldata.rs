use lard::error::Error;
use lard::kldata::{emit_kldata, parse_columns, parse_kldata, parse_obs, parse_row, parse_value, ObsType, ObsinnHeader, ObsinnId, ObsinnObs};
use lard::obstime::ObsTime;
use lard::params::{Param, ParamRegistry};

fn chars(s: &str) -> Vec<char> {
    s.chars().collect()
}

fn registry() -> ParamRegistry {
    let mut reg = ParamRegistry::new();
    reg.insert("TA", Param::new(211, "air_temperature".to_string(), true));
    reg.insert("CI", Param::new(1021, "ci".to_string(), true));
    reg.insert("IR", Param::new(1022, "ir".to_string(), true));
    reg.insert("TGX", Param::new(225, "tgx".to_string(), true));
    reg.insert("TGM", Param::new(222, "tgm".to_string(), true));
    reg.insert("KLOBS", Param::new(1088, "klobs".to_string(), false));
    reg
}

fn header(s: &str) -> Result<(i32, i32, usize), Error> {
    let h = ObsinnHeader::parse(&chars(s))?;
    Ok((h.station_id, h.type_id, h.message_id))
}

fn id(code: &str, sl: Option<(i32, i32)>) -> ObsinnId {
    ObsinnId { param_code: code.to_string(), sensor_and_level: sl }
}

fn time(y: u16, mo: u8, d: u8, h: u8, mi: u8, s: u8) -> ObsTime {
    ObsTime::from_parts(y, mo, d, h, mi, s).unwrap()
}

fn scalar_of(v: &ObsType) -> f32 {
    match v {
        ObsType::Scalar(t) => t.parse::<f32>().unwrap(),
        ObsType::NonScalar(t) => panic!("expected a scalar, got {}", t),
    }
}

#[test]
fn header_missing_kldata_indicator() {
    assert!(matches!(header("Test message that fails."), Err(Error::Parse(_))));
}

#[test]
fn header_valid_variants() {
    assert_eq!(header("kldata/nationalnr=100/type=504"), Ok((100, 504, 0)));
    assert_eq!(header("kldata/type=504/nationalnr=100/messageid=25"), Ok((100, 504, 25)));
    assert_eq!(header("kldata/messageid=23/nationalnr=99993/type=508/add"), Ok((99993, 508, 23)));
    assert_eq!(
        header("kldata/received_time=\"2024-07-05 08:27:40+00\"/nationalnr=297000/type=70051"),
        Ok((297000, 70051, 0))
    );
}

#[test]
fn header_unexpected_field() {
    assert_eq!(
        header("kldata/nationalnr=93140/type=501/unexpected"),
        Err(Error::Parse("unexpected field in kldata header format: unexpected".to_string()))
    );
}

#[test]
fn header_missing_required_fields() {
    assert_eq!(
        header("kldata/messageid=10/type=501"),
        Err(Error::Parse("missing field `nationalnr` in kldata header".to_string()))
    );
    assert_eq!(
        header("kldata/messageid=10/nationalnr=93140"),
        Err(Error::Parse("missing field `type` in kldata header".to_string()))
    );
}

#[test]
fn header_bad_numbers() {
    assert!(matches!(header("kldata/nationalnr=abc/type=501"), Err(Error::Parse(_))));
    assert!(matches!(header("kldata/nationalnr=1/type=501/messageid=-1"), Err(Error::Parse(_))));
    assert!(matches!(header("kldata/nationalnr=2147483648/type=501"), Err(Error::Parse(_))));
    assert_eq!(header("kldata/nationalnr=-2147483648/type=+7"), Ok((-2147483648, 7, 0)));
}

#[test]
fn columns_match_cases() {
    assert_eq!(
        parse_columns(&chars("KLOBS,QSI_01(0,0)")),
        Ok(vec![id("KLOBS", None), id("QSI_01", Some((0, 0)))])
    );
    assert_eq!(
        parse_columns(&chars("param_1,param_2,QSI_01(0,0)")),
        Ok(vec![id("param_1", None), id("param_2", None), id("QSI_01", Some((0, 0)))])
    );
    assert_eq!(
        parse_columns(&chars("param_1(0,0),param_2,param_3(0,0)")),
        Ok(vec![id("param_1", Some((0, 0))), id("param_2", None), id("param_3", Some((0, 0)))])
    );
    assert_eq!(parse_columns(&chars("TA(2,14)")), Ok(vec![id("TA", Some((2, 14)))]));
}

#[test]
fn columns_malformed() {
    assert!(matches!(parse_columns(&chars("")), Err(Error::Parse(_))));
    assert!(matches!(parse_columns(&chars("TA(0.1,0)")), Err(Error::Parse(_))));
    assert!(matches!(parse_columns(&chars("TA(0,0")), Err(Error::Parse(_))));
    assert!(matches!(parse_columns(&chars("TA,,TGX")), Err(Error::Parse(_))));
}

#[test]
fn row_single_line() {
    let reg = registry();
    let cols = vec![id("TA", None), id("CI", None), id("IR", None)];
    let row = parse_row(&chars("20160201054100,-1.1,0,2.80"), &cols, &reg).unwrap();
    assert_eq!(row.timestamp, time(2016, 2, 1, 5, 41, 0));
    assert_eq!(row.values.len(), 3);
    assert_eq!(scalar_of(&row.values[0]), -1.1);
    assert_eq!(scalar_of(&row.values[1]), 0.0);
    assert_eq!(scalar_of(&row.values[2]), 2.8);
}

#[test]
fn row_non_scalar_parameter() {
    let reg = registry();
    let cols = vec![id("KLOBS", None), id("TA", None)];
    let row = parse_row(&chars("20240910000000,20240910000000,10.1"), &cols, &reg).unwrap();
    assert_eq!(row.timestamp, time(2024, 9, 10, 0, 0, 0));
    assert_eq!(row.values[0], ObsType::NonScalar("20240910000000".to_string()));
    assert_eq!(scalar_of(&row.values[1]), 10.1);
}

#[test]
fn row_unregistered_code_is_opaque() {
    let reg = registry();
    let cols = vec![id("unknown", None), id("TA", None)];
    let row = parse_row(&chars("20240910000000,abc,10.1"), &cols, &reg).unwrap();
    assert_eq!(row.values[0], ObsType::NonScalar("abc".to_string()));
}

#[test]
fn row_errors() {
    let reg = registry();
    let cols = vec![id("TA", None)];
    assert!(matches!(parse_row(&chars("20240910000000,x1"), &cols, &reg), Err(Error::Parse(_))));
    assert!(matches!(parse_row(&chars("2024091000000,1"), &cols, &reg), Err(Error::Parse(_))));
    assert!(matches!(parse_row(&chars("20240230000000,1"), &cols, &reg), Err(Error::Parse(_))));
    assert!(matches!(parse_row(&chars("20240910000000,1,2"), &cols, &reg), Err(Error::Parse(_))));
    assert!(parse_row(&chars("20240229235959,1e3"), &cols, &reg).is_ok());
    assert!(parse_row(&chars("20240910000000,-inf"), &cols, &reg).is_ok());
    assert!(matches!(parse_row(&chars("20240910000000,."), &cols, &reg), Err(Error::Parse(_))));
}

#[test]
fn kldata_too_few_lines() {
    let reg = registry();
    assert_eq!(
        parse_kldata("", &reg).unwrap_err(),
        Error::Parse("kldata message contained too few lines".to_string())
    );
    assert_eq!(
        parse_kldata("kldata/nationalnr=99993/type=508/messageid=23", &reg).unwrap_err(),
        Error::Parse("kldata message contained too few lines".to_string())
    );
}

#[test]
fn kldata_missing_data() {
    let reg = registry();
    let body = "kldata/nationalnr=93140/type=501/messageid=23\nDD(0,0),FF(0,0),DG_1(0,0),FG_1(0,0),KLFG_1(0,0),FX_1(0,0)";
    assert_eq!(
        parse_kldata(body, &reg).unwrap_err(),
        Error::Parse("empty row in kldata csv".to_string())
    );
}

#[test]
fn kldata_multiple_lines() {
    let reg = registry();
    let body = "kldata/nationalnr=20001/type=501/messageid=23\nTA,CI,IR\n20160201054100,-1.1,0,2.80\n20160201055100,-1.5,1,2.90\n";
    let (message_id, chunk) = parse_kldata(body, &reg).unwrap();
    assert_eq!(message_id, 23);
    assert_eq!(chunk.station_id, 20001);
    assert_eq!(chunk.type_id, 501);
    assert_eq!(chunk.rows.len(), 2);
    assert_eq!(chunk.rows[1].timestamp, time(2016, 2, 1, 5, 51, 0));
    assert_eq!(scalar_of(&chunk.rows[1].values[0]), -1.5);
    assert_eq!(scalar_of(&chunk.rows[1].values[2]), 2.9);
}

#[test]
fn kldata_emit_then_parse_gives_same() {
    let reg = registry();
    let body = "kldata/type=501/nationalnr=20001/messageid=7/add\nTA(0,0),KLOBS,TGX\n20240101010000,1.5,x y,007\n20240101020000,-3";
    let (message_id, chunk) = parse_kldata(body, &reg).unwrap();
    let text = emit_kldata(message_id, &chunk);
    assert_eq!(
        text,
        "kldata/nationalnr=20001/type=501/messageid=7\nTA(0,0),KLOBS,TGX\n20240101010000,1.5,x y,007\n20240101020000,-3"
    );
    assert_eq!(parse_kldata(&text, &reg).unwrap(), (message_id, chunk));
}

#[test]
fn kldata_twelve_hourly_rows() {
    let reg = registry();
    let mut body = String::from("kldata/nationalnr=20001/type=501/messageid=23\nTA,TGX\n");
    for h in 0..12 {
        body.push_str(&format!("20240101{:02}0000,0,0\n", h));
    }
    let (message_id, chunk) = parse_kldata(&body, &reg).unwrap();
    assert_eq!(message_id, 23);
    assert_eq!(chunk.rows.len(), 12);
}

fn obs(ts: ObsTime, code: &str, v: ObsType) -> ObsinnObs {
    ObsinnObs { timestamp: ts, id: id(code, None), value: v }
}

#[test]
fn obs_multiple_lines() {
    let reg = registry();
    let cols = vec![id("TA", None), id("CI", None), id("IR", None)];
    let got = parse_obs("20160201054100,-1.1,0,2.80\n20160201055100,-1.5,1,2.90", &cols, &reg).unwrap();
    assert_eq!(got.len(), 6);
    let t1 = time(2016, 2, 1, 5, 41, 0);
    let t2 = time(2016, 2, 1, 5, 51, 0);
    assert_eq!(got[0], obs(t1, "TA", ObsType::Scalar("-1.1".to_string())));
    assert_eq!(got[2], obs(t1, "IR", ObsType::Scalar("2.80".to_string())));
    assert_eq!(got[4], obs(t2, "CI", ObsType::Scalar("1".to_string())));
    let values: Vec<f32> = got.iter().map(|o| scalar_of(&o.value)).collect();
    assert_eq!(values, vec![-1.1, 0.0, 2.8, -1.5, 1.0, 2.9]);
}

#[test]
fn obs_unrecognised_code_is_kept_opaque() {
    let reg = registry();
    let cols = vec![id("unknown", None), id("TA", None)];
    let got = parse_obs("20240910000000,20240910000000,10.1", &cols, &reg).unwrap();
    assert_eq!(got[0].value, ObsType::NonScalar("20240910000000".to_string()));
    assert!(matches!(parse_obs("", &cols, &reg), Err(Error::Parse(_))));
}

#[test]
fn chunk_observations_flatten_rows() {
    let reg = registry();
    let (_, chunk) = parse_kldata("kldata/nationalnr=1/type=2\nTA,TGX\n20240101000000,1\n20240101010000,2,3", &reg).unwrap();
    let flat = chunk.observations();
    assert_eq!(flat.len(), 3);
    assert_eq!(flat[2], obs(time(2024, 1, 1, 1, 0, 0), "TGX", ObsType::Scalar("3".to_string())));
}

#[test]
fn header_value_reading() {
    assert_eq!(parse_value(&chars("type"), &chars("504")), Ok(504));
    assert_eq!(
        parse_value(&chars("type"), &chars("x")),
        Err(Error::Parse("invalid value x in kldata header for key type".to_string()))
    );
}
