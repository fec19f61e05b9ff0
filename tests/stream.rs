use lard::kvkafka::{messages_of, optional, xml_body, zero_to_none, Error, Kvdata, KvalobsData, Level, Obstime, Sensor, Station, Tbtime, Typeid};
use lard::obstime::ObsTime;
use lard::partitions::{create_table_partitions, format_partition, partition_boundary_years};
use lard::seeder::{random_label_ids, series_instants, series_window};
use lard::query::Cadence;

fn kv(paramid: i32, original: &str) -> Kvdata {
    Kvdata {
        paramid,
        original: Some(original.to_string()),
        corrected: Some(original.to_string()),
        controlinfo: Some("1000000000000000".to_string()),
        useinfo: Some("9000000000000000".to_string()),
        cfailed: Some(String::new()),
    }
}

fn envelope(obstime: &str) -> KvalobsData {
    KvalobsData {
        stations: vec![Station {
            val: 20001,
            typeids: vec![Typeid {
                val: 501,
                obstimes: vec![Obstime {
                    val: obstime.to_string(),
                    tbtimes: vec![Tbtime {
                        sensors: vec![Sensor {
                            val: Some("0".to_string()),
                            levels: vec![Level { val: None, kvdata: Some(vec![kv(106, "10"), kv(211, "")]) }],
                        }],
                    }],
                }],
            }],
        }],
    }
}

#[test]
fn payload_prolog_is_stripped() {
    let msg = b"  <?xml version=\"1.0\"?>\n<KvalobsData>\\</KvalobsData>  ";
    assert_eq!(xml_body(msg).unwrap(), "<KvalobsData></KvalobsData>");
    assert!(matches!(xml_body(b"<KvalobsData/>"), Err(Error::IssueParsingXML(_))));
    assert!(matches!(xml_body(b"<?xml version"), Err(Error::IssueParsingXML(_))));
    assert!(matches!(xml_body(&[0xff, 0xfe]), Err(Error::IssueParsingXML(_))));
}

#[test]
fn envelope_leaves_become_messages() {
    let msgs = messages_of(&envelope("2024-06-06 06:00:00"));
    assert_eq!(msgs.len(), 2);
    let m = &msgs[0];
    assert_eq!((m.kvid.station, m.kvid.typeid, m.kvid.paramid), (20001, 501, 106));
    assert_eq!((m.kvid.sensor, m.kvid.level), (None, None));
    assert_eq!(m.obstime, ObsTime::from_parts(2024, 6, 6, 6, 0, 0).unwrap());
    assert_eq!(m.original.as_deref(), Some("10"));
    assert_eq!(m.controlinfo.as_deref(), Some("1000000000000000"));
    assert_eq!(m.cfailed, None);
    assert_eq!(msgs[1].original, None);
}

#[test]
fn bad_obstime_skips_subtree() {
    assert!(messages_of(&envelope("2024-06-06T06:00:00")).is_empty());
}

#[test]
fn attribute_conversions() {
    assert_eq!(zero_to_none(&None), Some(None));
    assert_eq!(zero_to_none(&Some("0".to_string())), Some(None));
    assert_eq!(zero_to_none(&Some(String::new())), Some(None));
    assert_eq!(zero_to_none(&Some("3".to_string())), Some(Some(3)));
    assert_eq!(zero_to_none(&Some("x".to_string())), None);
    assert_eq!(optional(&Some(String::new())), None);
    assert_eq!(optional(&Some("a".to_string())), Some("a".to_string()));
}

#[test]
fn partition_statements() {
    assert_eq!(
        format_partition("1950", "2100", "public.data", "1950-01-01 00:00:00+00", "2100-01-01 00:00:00+00"),
        "CREATE TABLE public.data_y1950_to_y2100 PARTITION OF public.data FOR VALUES FROM ('1950-01-01 00:00:00+00') TO ('2100-01-01 00:00:00+00')"
    );
    let years = partition_boundary_years();
    assert_eq!(years.len(), 19);
    assert_eq!((years[0], years[3], years[18]), (1950, 2015, 2030));
    let lines = create_table_partitions("data", &years);
    assert_eq!(lines.len(), 18);
    assert_eq!(
        lines[0],
        "CREATE TABLE IF NOT EXISTS data_y1950_to_y2000 PARTITION OF public.data\nFOR VALUES FROM ('1950-01-01 00:00:00+00') TO ('2000-01-01 00:00:00+00');\n"
    );
}

#[test]
fn seeded_series_windows() {
    let present = 1699052940; // 2023-11-03T23:09:00Z
    let w = series_window(present, Cadence::Day, 2, 0).unwrap();
    assert_eq!(w.start_time, 1698969600 - 2 * 86400);
    assert_eq!(w.end_time, present);
    let w = series_window(present, Cadence::Hour, 1, 1).unwrap();
    assert_eq!(w.end_time, present - 365 * 86400);
    assert_eq!(w.start_time, 1699052400 - 3600 - 365 * 86400);
    let w = series_window(present, Cadence::Day, 100000, 0).unwrap();
    assert_eq!(w.start_time, -631152000);
    assert_eq!(series_instants(0, 180, 60), vec![0, 60, 120, 180]);
    let (a, b, c) = random_label_ids();
    assert!((1000..2000).contains(&a) && (1000..2000).contains(&b) && (1000..2000).contains(&c));
}
