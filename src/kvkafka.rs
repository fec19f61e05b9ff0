use chrono::{Datelike, Timelike};
use crate::numeric::{i32_of, parse_i32};
use crate::obstime::ObsTime;
use crate::text::{chars_of, string_of};
use vstd::prelude::*;
use vstd::utf8::{decode_utf8, valid_utf8};

verus! {

/// What can go wrong while reading the message stream.
#[derive(Clone, Debug, PartialEq, Eq)]
pub enum Error {
    IssueParsingXML(String),
    IssueParsingTime(String),
    Kafka(String),
    Database(String),
    TimeseriesMissing(i32, i32),
    Deserialize(String),
}

/// Relies on `std::str::from_utf8`: the text the bytes encode, or `None`
/// when they are not UTF-8.
#[verifier::external_body]
fn utf8_text(b: &[u8]) -> (r: Option<String>)
    ensures
        match r {
            Some(s) => valid_utf8(b@) && s@ == decode_utf8(b@),
            None => !valid_utf8(b@),
        },
{
    std::str::from_utf8(b).ok().map(|s| s.to_string())
}

/// A text without its leading and trailing white space.
pub uninterp spec fn trim_of(s: Seq<char>) -> Seq<char>;

/// Relies on `str::trim`: the text without leading and trailing white space.
#[verifier::external_body]
fn trimmed(s: &str) -> (r: String)
    ensures
        r@ == trim_of(s@),
{
    s.trim().to_string()
}

/// `s` without newlines and backslashes.
pub open spec fn strip_breaks(s: Seq<char>) -> Seq<char>
    decreases s.len(),
{
    if s.len() == 0 {
        Seq::empty()
    } else {
        let prev = strip_breaks(s.drop_last());
        if s.last() == '\n' || s.last() == '\\' {
            prev
        } else {
            prev.push(s.last())
        }
    }
}

pub open spec fn xml_prolog_start() -> Seq<char> {
    seq!['<', '?', 'x', 'm', 'l']
}

/// Where the first `?>` starts in `s`, or -1.
pub open spec fn prolog_end(s: Seq<char>) -> int
    decreases s.len(),
{
    if s.len() < 2 {
        -1
    } else if s[0] == '?' && s[1] == '>' {
        0
    } else {
        let k = prolog_end(s.skip(1));
        if k < 0 {
            -1
        } else {
            k + 1
        }
    }
}

/// The XML document of a payload: the trimmed text without newlines and
/// backslashes must start with `<?xml`; what follows the first `?>` is the
/// document.
pub open spec fn xml_body_of(s: Seq<char>) -> Option<Seq<char>> {
    let t = strip_breaks(s);
    if t.len() >= 5 && t.take(5) == xml_prolog_start() && prolog_end(t) >= 0 {
        Some(t.skip(prolog_end(t) + 2))
    } else {
        None
    }
}

pub open spec fn closes_at(s: Seq<char>, j: int) -> bool {
    s[j] == '?' && s[j + 1] == '>'
}

proof fn lemma_prolog_end_found(s: Seq<char>, i: int)
    requires
        0 <= i,
        i + 1 < s.len(),
        closes_at(s, i),
        forall|j: int| 0 <= j < i ==> !#[trigger] closes_at(s, j),
    ensures
        prolog_end(s) == i,
    decreases i,
{
    if i > 0 {
        assert(!closes_at(s, 0));
        assert forall|j: int| 0 <= j < i - 1 implies !#[trigger] closes_at(s.skip(1), j) by {
            assert(!closes_at(s, j + 1));
            assert(s.skip(1)[j] == s[j + 1]);
            assert(s.skip(1)[j + 1] == s[j + 2]);
        }
        assert(s.skip(1)[i - 1] == s[i]);
        assert(s.skip(1)[i] == s[i + 1]);
        lemma_prolog_end_found(s.skip(1), i - 1);
    }
}

proof fn lemma_prolog_end_none(s: Seq<char>)
    requires
        forall|j: int| 0 <= j && j + 1 < s.len() ==> !#[trigger] closes_at(s, j),
    ensures
        prolog_end(s) == -1,
    decreases s.len(),
{
    if s.len() >= 2 {
        assert(!closes_at(s, 0));
        assert forall|j: int| 0 <= j && j + 1 < s.skip(1).len() implies !#[trigger] closes_at(
            s.skip(1),
            j,
        ) by {
            assert(!closes_at(s, j + 1));
            assert(s.skip(1)[j] == s[j + 1]);
            assert(s.skip(1)[j + 1] == s[j + 2]);
        }
        lemma_prolog_end_none(s.skip(1));
    }
}

/// Strips a payload down to its XML document.
pub fn xml_body(message: &[u8]) -> (r: Result<String, Error>)
    ensures
        match r {
            Ok(b) => valid_utf8(message@) && xml_body_of(trim_of(decode_utf8(message@))) == Some(b@),
            Err(e) => e is IssueParsingXML && (!valid_utf8(message@) || xml_body_of(
                trim_of(decode_utf8(message@)),
            ) is None),
        },
{
    let text = match utf8_text(message) {
        Some(t) => t,
        None => {
            return Err(Error::IssueParsingXML("couldn't convert message from utf8".to_owned()));
        },
    };
    let trimmed_text = trimmed(text.as_str());
    let cs = chars_of(trimmed_text.as_str());
    let ghost src = cs@;
    let mut t: Vec<char> = Vec::new();
    let mut i: usize = 0;
    assert(src.take(0) =~= Seq::<char>::empty());
    while i < cs.len()
        invariant
            0 <= i <= cs@.len(),
            src == cs@,
            t@ == strip_breaks(src.take(i as int)),
        decreases cs@.len() - i,
    {
        assert(src.take(i as int + 1).drop_last() =~= src.take(i as int));
        assert(src.take(i as int + 1).last() == cs@[i as int]);
        if cs[i] != '\n' && cs[i] != '\\' {
            t.push(cs[i]);
        }
        i += 1;
    }
    assert(src.take(src.len() as int) =~= src);
    let ghost ts = t@;
    let prolog = ['<', '?', 'x', 'm', 'l'];
    assert(prolog@ =~= xml_prolog_start());
    if t.len() < 5 || !crate::text::same_chars(&t.as_slice()[0..5], &prolog) {
        assert(t.len() >= 5 ==> t@.subrange(0, 5) =~= ts.take(5));
        return Err(Error::IssueParsingXML("kv2kvdata must be xml starting with '<?xml'".to_owned()));
    }
    assert(t@.subrange(0, 5) =~= ts.take(5));
    let mut j: usize = 0;
    while j < t.len() - 1
        invariant
            0 <= j < t@.len(),
            t@.len() >= 5,
            ts == t@,
            ts == strip_breaks(trim_of(decode_utf8(message@))),
            valid_utf8(message@),
            ts.len() >= 5 && ts.take(5) == xml_prolog_start(),
            forall|k: int| 0 <= k < j ==> !#[trigger] closes_at(ts, k),
        decreases t@.len() - j,
    {
        if t[j] == '?' && t[j + 1] == '>' {
            proof {
                lemma_prolog_end_found(ts, j as int);
            }
            let body = &t.as_slice()[j + 2..t.len()];
            assert(body@ =~= ts.skip(j as int + 2));
            return Ok(string_of(body));
        }
        j += 1;
    }
    proof {
        lemma_prolog_end_none(ts);
    }
    Err(Error::IssueParsingXML("couldn't find end of xml tag '?>'".to_owned()))
}

// ----- the envelope -----

/// `<KvalobsData>`: its stations.
#[derive(Clone, Debug, PartialEq, Eq)]
pub struct KvalobsData {
    pub stations: Vec<Station>,
}

/// `<station val=..>`
#[derive(Clone, Debug, PartialEq, Eq)]
pub struct Station {
    pub val: i32,
    pub typeids: Vec<Typeid>,
}

/// `<typeid val=..>`
#[derive(Clone, Debug, PartialEq, Eq)]
pub struct Typeid {
    pub val: i32,
    pub obstimes: Vec<Obstime>,
}

/// `<obstime val=..>`, with the time as written.
#[derive(Clone, Debug, PartialEq, Eq)]
pub struct Obstime {
    pub val: String,
    pub tbtimes: Vec<Tbtime>,
}

/// `<tbtime>`: the table time is not used.
#[derive(Clone, Debug, PartialEq, Eq)]
pub struct Tbtime {
    pub sensors: Vec<Sensor>,
}

/// `<sensor val=..>`, with the attribute as written.
#[derive(Clone, Debug, PartialEq, Eq)]
pub struct Sensor {
    pub val: Option<String>,
    pub levels: Vec<Level>,
}

/// `<level val=..>`, with the attribute as written.
#[derive(Clone, Debug, PartialEq, Eq)]
pub struct Level {
    pub val: Option<String>,
    pub kvdata: Option<Vec<Kvdata>>,
}

/// `<kvdata paramid=..>` with its fields as written.
#[derive(Clone, Debug, PartialEq, Eq)]
pub struct Kvdata {
    pub paramid: i32,
    pub original: Option<String>,
    pub corrected: Option<String>,
    pub controlinfo: Option<String>,
    pub useinfo: Option<String>,
    pub cfailed: Option<String>,
}

/// The identity of one observation in the stream.
#[derive(Clone, Copy, Debug, PartialEq, Eq, Structural)]
pub struct KvalobsId {
    pub station: i32,
    pub paramid: i32,
    pub typeid: i32,
    pub sensor: Option<i32>,
    pub level: Option<i32>,
}

/// One quality-controlled observation, ready to be written as a flag row.
/// The original and corrected values are kept as their literals.
#[derive(Clone, Debug, PartialEq, Eq)]
pub struct Msg {
    pub kvid: KvalobsId,
    pub obstime: ObsTime,
    pub original: Option<String>,
    pub corrected: Option<String>,
    pub controlinfo: Option<String>,
    pub useinfo: Option<String>,
    pub cfailed: Option<i32>,
}

/// The date and time fields of a `%Y-%m-%d %H:%M:%S` text.
pub uninterp spec fn kv_time_fields(s: Seq<char>) -> Option<(i32, u32, u32, u32, u32, u32)>;

/// Relies on chrono's `NaiveDateTime::parse_from_str` with the format
/// `%Y-%m-%d %H:%M:%S`: the fields of the parsed time, or `None`.
#[verifier::external_body]
fn parse_kv_time_fields(s: &str) -> (r: Option<(i32, u32, u32, u32, u32, u32)>)
    ensures
        r == kv_time_fields(s@),
{
    let t = chrono::NaiveDateTime::parse_from_str(s, "%Y-%m-%d %H:%M:%S").ok()?;
    Some((t.year(), t.month(), t.day(), t.hour(), t.minute(), t.second()))
}

/// The observation time an `obstime` attribute gives.
pub open spec fn kv_time_of(s: Seq<char>) -> Option<ObsTime> {
    match kv_time_fields(s) {
        Some((y, mo, d, h, mi, sec)) => if 0 <= y <= 9999 && mo <= 255 && d <= 255 && h <= 255
            && mi <= 255 && sec <= 255 && (ObsTime {
            year: y as u16,
            month: mo as u8,
            day: d as u8,
            hour: h as u8,
            minute: mi as u8,
            second: sec as u8,
        }).valid() {
            Some(
                ObsTime {
                    year: y as u16,
                    month: mo as u8,
                    day: d as u8,
                    hour: h as u8,
                    minute: mi as u8,
                    second: sec as u8,
                },
            )
        } else {
            None
        },
        None => None,
    }
}

fn kv_time(s: &String) -> (r: Option<ObsTime>)
    ensures
        r == kv_time_of(s@),
{
    match parse_kv_time_fields(s.as_str()) {
        Some((y, mo, d, h, mi, sec)) => {
            if 0 <= y && y <= 9999 && mo <= 255 && d <= 255 && h <= 255 && mi <= 255 && sec <= 255 {
                ObsTime::from_parts(y as u16, mo as u8, d as u8, h as u8, mi as u8, sec as u8)
            } else {
                None
            }
        },
        None => None,
    }
}

/// A sensor or level attribute: missing, empty and `0` mean none; anything
/// else must be an integer (`None` here when it is not).
pub open spec fn zero_to_none_spec(o: Option<String>) -> Option<Option<i32>> {
    match o {
        None => Some(None),
        Some(s) => if s@.len() == 0 || s@ == seq!['0'] {
            Some(None)
        } else {
            match i32_of(s@) {
                Some(v) => Some(Some(v)),
                None => None,
            }
        },
    }
}

pub fn zero_to_none(o: &Option<String>) -> (r: Option<Option<i32>>)
    ensures
        r == zero_to_none_spec(*o),
{
    match o {
        None => Some(None),
        Some(s) => {
            let cs = chars_of(s.as_str());
            if cs.len() == 0 || (cs.len() == 1 && cs[0] == '0') {
                assert(cs.len() == 1 ==> cs@ =~= seq![cs@[0]]);
                Some(None)
            } else {
                assert(cs@.len() == 1 ==> (cs@ == seq!['0'] ==> cs@[0] == '0'));
                match parse_i32(cs.as_slice()) {
                    Some(v) => Some(Some(v)),
                    None => None,
                }
            }
        },
    }
}

/// A field that is empty or missing means none.
pub open spec fn optional_spec(o: Option<String>) -> Option<String> {
    match o {
        Some(s) => if s@.len() == 0 {
            None
        } else {
            Some(s)
        },
        None => None,
    }
}

pub fn optional(o: &Option<String>) -> (r: Option<String>)
    ensures
        r == optional_spec(*o),
{
    match o {
        Some(s) => if s.as_str().is_empty() {
            None
        } else {
            Some(s.clone())
        },
        None => None,
    }
}

/// The flag message of one `kvdata` leaf, or `None` when its sensor, level
/// or `cfailed` cannot be read.
pub open spec fn leaf_msg(
    station: i32,
    typeid: i32,
    t: ObsTime,
    sensor: Option<String>,
    level: Option<String>,
    kv: Kvdata,
) -> Option<Msg> {
    let cfailed = match optional_spec(kv.cfailed) {
        Some(c) => match i32_of(c@) {
            Some(v) => Some(Some(v)),
            None => None,
        },
        None => Some(None),
    };
    match (zero_to_none_spec(sensor), zero_to_none_spec(level), cfailed) {
        (Some(s), Some(l), Some(c)) => Some(
            Msg {
                kvid: KvalobsId { station, paramid: kv.paramid, typeid, sensor: s, level: l },
                obstime: t,
                original: optional_spec(kv.original),
                corrected: optional_spec(kv.corrected),
                controlinfo: optional_spec(kv.controlinfo),
                useinfo: optional_spec(kv.useinfo),
                cfailed: c,
            },
        ),
        _ => None,
    }
}

fn leaf(
    station: i32,
    typeid: i32,
    t: ObsTime,
    sensor: &Option<String>,
    level: &Option<String>,
    kv: &Kvdata,
) -> (r: Option<Msg>)
    ensures
        r == leaf_msg(station, typeid, t, *sensor, *level, *kv),
{
    let cfailed = match optional(&kv.cfailed) {
        Some(c) => {
            let cs = chars_of(c.as_str());
            match parse_i32(cs.as_slice()) {
                Some(v) => Some(Some(v)),
                None => None,
            }
        },
        None => Some(None),
    };
    match (zero_to_none(sensor), zero_to_none(level), cfailed) {
        (Some(s), Some(l), Some(c)) => Some(
            Msg {
                kvid: KvalobsId { station, paramid: kv.paramid, typeid, sensor: s, level: l },
                obstime: t,
                original: optional(&kv.original),
                corrected: optional(&kv.corrected),
                controlinfo: optional(&kv.controlinfo),
                useinfo: optional(&kv.useinfo),
                cfailed: c,
            },
        ),
        _ => None,
    }
}

// The messages of each level of the envelope, in document order.

pub open spec fn kvdata_msgs(
    station: i32,
    typeid: i32,
    t: ObsTime,
    sensor: Option<String>,
    level: Option<String>,
    kvs: Seq<Kvdata>,
) -> Seq<Msg>
    decreases kvs.len(),
{
    if kvs.len() == 0 {
        Seq::empty()
    } else {
        let prev = kvdata_msgs(station, typeid, t, sensor, level, kvs.drop_last());
        match leaf_msg(station, typeid, t, sensor, level, kvs.last()) {
            Some(m) => prev.push(m),
            None => prev,
        }
    }
}

pub open spec fn level_msgs(station: i32, typeid: i32, t: ObsTime, sensor: Option<String>, lv: Level) -> Seq<Msg> {
    match lv.kvdata {
        Some(kvs) => kvdata_msgs(station, typeid, t, sensor, lv.val, kvs@),
        None => Seq::empty(),
    }
}

pub open spec fn levels_msgs(
    station: i32,
    typeid: i32,
    t: ObsTime,
    sensor: Option<String>,
    lvs: Seq<Level>,
) -> Seq<Msg>
    decreases lvs.len(),
{
    if lvs.len() == 0 {
        Seq::empty()
    } else {
        levels_msgs(station, typeid, t, sensor, lvs.drop_last()) + level_msgs(
            station,
            typeid,
            t,
            sensor,
            lvs.last(),
        )
    }
}

pub open spec fn sensors_msgs(station: i32, typeid: i32, t: ObsTime, ss: Seq<Sensor>) -> Seq<Msg>
    decreases ss.len(),
{
    if ss.len() == 0 {
        Seq::empty()
    } else {
        sensors_msgs(station, typeid, t, ss.drop_last()) + levels_msgs(
            station,
            typeid,
            t,
            ss.last().val,
            ss.last().levels@,
        )
    }
}

pub open spec fn tbtimes_msgs(station: i32, typeid: i32, t: ObsTime, tbs: Seq<Tbtime>) -> Seq<Msg>
    decreases tbs.len(),
{
    if tbs.len() == 0 {
        Seq::empty()
    } else {
        tbtimes_msgs(station, typeid, t, tbs.drop_last()) + sensors_msgs(
            station,
            typeid,
            t,
            tbs.last().sensors@,
        )
    }
}

/// An obstime whose time cannot be read gives no message at all.
pub open spec fn obstime_msgs(station: i32, typeid: i32, o: Obstime) -> Seq<Msg> {
    match kv_time_of(o.val@) {
        Some(t) => tbtimes_msgs(station, typeid, t, o.tbtimes@),
        None => Seq::empty(),
    }
}

pub open spec fn obstimes_msgs(station: i32, typeid: i32, os: Seq<Obstime>) -> Seq<Msg>
    decreases os.len(),
{
    if os.len() == 0 {
        Seq::empty()
    } else {
        obstimes_msgs(station, typeid, os.drop_last()) + obstime_msgs(station, typeid, os.last())
    }
}

pub open spec fn typeids_msgs(station: i32, ts: Seq<Typeid>) -> Seq<Msg>
    decreases ts.len(),
{
    if ts.len() == 0 {
        Seq::empty()
    } else {
        typeids_msgs(station, ts.drop_last()) + obstimes_msgs(station, ts.last().val, ts.last().obstimes@)
    }
}

pub open spec fn stations_msgs(ss: Seq<Station>) -> Seq<Msg>
    decreases ss.len(),
{
    if ss.len() == 0 {
        Seq::empty()
    } else {
        stations_msgs(ss.drop_last()) + typeids_msgs(ss.last().val, ss.last().typeids@)
    }
}

fn push_kvdata(
    out: &mut Vec<Msg>,
    station: i32,
    typeid: i32,
    t: ObsTime,
    sensor: &Option<String>,
    level: &Option<String>,
    kvs: &Vec<Kvdata>,
)
    ensures
        final(out)@ == old(out)@ + kvdata_msgs(station, typeid, t, *sensor, *level, kvs@),
{
    let mut i: usize = 0;
    assert(kvs@.take(0) =~= Seq::<Kvdata>::empty());
    assert(old(out)@ + Seq::<Msg>::empty() =~= old(out)@);
    while i < kvs.len()
        invariant
            0 <= i <= kvs@.len(),
            out@ == old(out)@ + kvdata_msgs(station, typeid, t, *sensor, *level, kvs@.take(i as int)),
        decreases kvs@.len() - i,
    {
        assert(kvs@.take(i as int + 1).drop_last() =~= kvs@.take(i as int));
        assert(kvs@.take(i as int + 1).last() == kvs@[i as int]);
        let ghost before = out@;
        match leaf(station, typeid, t, sensor, level, &kvs[i]) {
            Some(m) => {
                out.push(m);
                assert(out@ =~= before.push(m));
            },
            None => {},
        }
        i += 1;
    }
    assert(kvs@.take(kvs@.len() as int) =~= kvs@);
}

fn push_levels(out: &mut Vec<Msg>, station: i32, typeid: i32, t: ObsTime, sensor: &Option<String>, lvs: &Vec<Level>)
    ensures
        final(out)@ == old(out)@ + levels_msgs(station, typeid, t, *sensor, lvs@),
{
    let mut i: usize = 0;
    assert(lvs@.take(0) =~= Seq::<Level>::empty());
    assert(old(out)@ + Seq::<Msg>::empty() =~= old(out)@);
    while i < lvs.len()
        invariant
            0 <= i <= lvs@.len(),
            out@ == old(out)@ + levels_msgs(station, typeid, t, *sensor, lvs@.take(i as int)),
        decreases lvs@.len() - i,
    {
        assert(lvs@.take(i as int + 1).drop_last() =~= lvs@.take(i as int));
        assert(lvs@.take(i as int + 1).last() == lvs@[i as int]);
        let ghost before = out@;
        let lv = &lvs[i];
        match &lv.kvdata {
            Some(kvs) => push_kvdata(out, station, typeid, t, sensor, &lv.val, kvs),
            None => {},
        }
        assert(out@ =~= old(out)@ + levels_msgs(station, typeid, t, *sensor, lvs@.take(i as int + 1)));
        i += 1;
    }
    assert(lvs@.take(lvs@.len() as int) =~= lvs@);
}

fn push_sensors(out: &mut Vec<Msg>, station: i32, typeid: i32, t: ObsTime, ss: &Vec<Sensor>)
    ensures
        final(out)@ == old(out)@ + sensors_msgs(station, typeid, t, ss@),
{
    let mut i: usize = 0;
    assert(ss@.take(0) =~= Seq::<Sensor>::empty());
    assert(old(out)@ + Seq::<Msg>::empty() =~= old(out)@);
    while i < ss.len()
        invariant
            0 <= i <= ss@.len(),
            out@ == old(out)@ + sensors_msgs(station, typeid, t, ss@.take(i as int)),
        decreases ss@.len() - i,
    {
        assert(ss@.take(i as int + 1).drop_last() =~= ss@.take(i as int));
        assert(ss@.take(i as int + 1).last() == ss@[i as int]);
        push_levels(out, station, typeid, t, &ss[i].val, &ss[i].levels);
        assert(out@ =~= old(out)@ + sensors_msgs(station, typeid, t, ss@.take(i as int + 1)));
        i += 1;
    }
    assert(ss@.take(ss@.len() as int) =~= ss@);
}

fn push_tbtimes(out: &mut Vec<Msg>, station: i32, typeid: i32, t: ObsTime, tbs: &Vec<Tbtime>)
    ensures
        final(out)@ == old(out)@ + tbtimes_msgs(station, typeid, t, tbs@),
{
    let mut i: usize = 0;
    assert(tbs@.take(0) =~= Seq::<Tbtime>::empty());
    assert(old(out)@ + Seq::<Msg>::empty() =~= old(out)@);
    while i < tbs.len()
        invariant
            0 <= i <= tbs@.len(),
            out@ == old(out)@ + tbtimes_msgs(station, typeid, t, tbs@.take(i as int)),
        decreases tbs@.len() - i,
    {
        assert(tbs@.take(i as int + 1).drop_last() =~= tbs@.take(i as int));
        assert(tbs@.take(i as int + 1).last() == tbs@[i as int]);
        push_sensors(out, station, typeid, t, &tbs[i].sensors);
        assert(out@ =~= old(out)@ + tbtimes_msgs(station, typeid, t, tbs@.take(i as int + 1)));
        i += 1;
    }
    assert(tbs@.take(tbs@.len() as int) =~= tbs@);
}

fn push_obstimes(out: &mut Vec<Msg>, station: i32, typeid: i32, os: &Vec<Obstime>)
    ensures
        final(out)@ == old(out)@ + obstimes_msgs(station, typeid, os@),
{
    let mut i: usize = 0;
    assert(os@.take(0) =~= Seq::<Obstime>::empty());
    assert(old(out)@ + Seq::<Msg>::empty() =~= old(out)@);
    while i < os.len()
        invariant
            0 <= i <= os@.len(),
            out@ == old(out)@ + obstimes_msgs(station, typeid, os@.take(i as int)),
        decreases os@.len() - i,
    {
        assert(os@.take(i as int + 1).drop_last() =~= os@.take(i as int));
        assert(os@.take(i as int + 1).last() == os@[i as int]);
        match kv_time(&os[i].val) {
            Some(t) => push_tbtimes(out, station, typeid, t, &os[i].tbtimes),
            None => {},
        }
        assert(out@ =~= old(out)@ + obstimes_msgs(station, typeid, os@.take(i as int + 1)));
        i += 1;
    }
    assert(os@.take(os@.len() as int) =~= os@);
}

fn push_typeids(out: &mut Vec<Msg>, station: i32, ts: &Vec<Typeid>)
    ensures
        final(out)@ == old(out)@ + typeids_msgs(station, ts@),
{
    let mut i: usize = 0;
    assert(ts@.take(0) =~= Seq::<Typeid>::empty());
    assert(old(out)@ + Seq::<Msg>::empty() =~= old(out)@);
    while i < ts.len()
        invariant
            0 <= i <= ts@.len(),
            out@ == old(out)@ + typeids_msgs(station, ts@.take(i as int)),
        decreases ts@.len() - i,
    {
        assert(ts@.take(i as int + 1).drop_last() =~= ts@.take(i as int));
        assert(ts@.take(i as int + 1).last() == ts@[i as int]);
        push_obstimes(out, station, ts[i].val, &ts[i].obstimes);
        assert(out@ =~= old(out)@ + typeids_msgs(station, ts@.take(i as int + 1)));
        i += 1;
    }
    assert(ts@.take(ts@.len() as int) =~= ts@);
}

/// The flag messages of an envelope, one per readable `kvdata` leaf, in
/// document order. An obstime whose time cannot be read is skipped whole; a
/// leaf whose sensor, level or `cfailed` cannot be read is skipped alone.
pub fn messages_of(data: &KvalobsData) -> (r: Vec<Msg>)
    ensures
        r@ == stations_msgs(data.stations@),
{
    let mut out: Vec<Msg> = Vec::new();
    let ss = &data.stations;
    let mut i: usize = 0;
    assert(ss@.take(0) =~= Seq::<Station>::empty());
    assert(out@ =~= Seq::<Msg>::empty());
    while i < ss.len()
        invariant
            0 <= i <= ss@.len(),
            out@ == stations_msgs(ss@.take(i as int)),
        decreases ss@.len() - i,
    {
        assert(ss@.take(i as int + 1).drop_last() =~= ss@.take(i as int));
        assert(ss@.take(i as int + 1).last() == ss@[i as int]);
        push_typeids(&mut out, ss[i].val, &ss[i].typeids);
        i += 1;
    }
    assert(ss@.take(ss@.len() as int) =~= ss@);
    out
}

} // verus!
