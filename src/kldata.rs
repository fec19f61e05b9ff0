use crate::error::Error;
use crate::numeric::{
    all_digits, digits_at_most, digits_value, i32_of, int_text, is_float_literal, is_float_text,
    nat_text, parse_i32, parse_usize, push_i32, push_nat, usize_of,
};
use crate::obstime::{parse_time, push_time, time_of, time_text, ObsTime};
use crate::params::{is_scalar_code, ParamRegistry};
use crate::text::{
    chars_of, find_char, first_index, lacks, lemma_first_index, lemma_split_len, lines_spec, same_chars,
    split_ranges, split_spec, string_of, join_spec,
};
use vstd::prelude::*;

verus! {

/// Identifies one column of a batch: a parameter code, with sensor and
/// level when the column gives them.
#[derive(Clone, Debug, PartialEq, Eq)]
pub struct ObsinnId {
    pub param_code: String,
    pub sensor_and_level: Option<(i32, i32)>,
}

pub struct IdView {
    pub code: Seq<char>,
    pub sensor_and_level: Option<(i32, i32)>,
}

impl View for ObsinnId {
    type V = IdView;

    open spec fn view(&self) -> IdView {
        IdView { code: self.param_code@, sensor_and_level: self.sensor_and_level }
    }
}

/// One value of a batch: a scalar is kept as its floating-point literal,
/// anything else as opaque text.
#[derive(Clone, Debug, PartialEq, Eq)]
pub enum ObsType {
    Scalar(String),
    NonScalar(String),
}

pub enum ValueView {
    Scalar(Seq<char>),
    NonScalar(Seq<char>),
}

impl View for ObsType {
    type V = ValueView;

    open spec fn view(&self) -> ValueView {
        match self {
            ObsType::Scalar(s) => ValueView::Scalar(s@),
            ObsType::NonScalar(s) => ValueView::NonScalar(s@),
        }
    }
}

impl ObsType {
    /// A copy of the value.
    pub fn copied(&self) -> (r: ObsType)
        ensures
            r@ == self@,
    {
        match self {
            ObsType::Scalar(s) => ObsType::Scalar(s.clone()),
            ObsType::NonScalar(s) => ObsType::NonScalar(s.clone()),
        }
    }
}

impl ObsinnId {
    /// A copy of the column identifier.
    pub fn copied(&self) -> (r: ObsinnId)
        ensures
            r@ == self@,
    {
        ObsinnId { param_code: self.param_code.clone(), sensor_and_level: self.sensor_and_level }
    }
}

/// One data line: its time and its values, one per leading column.
#[derive(Clone, Debug, PartialEq, Eq)]
pub struct ObsinnRow {
    pub timestamp: ObsTime,
    pub values: Vec<ObsType>,
}

pub struct RowView {
    pub timestamp: ObsTime,
    pub values: Seq<ValueView>,
}

impl View for ObsinnRow {
    type V = RowView;

    open spec fn view(&self) -> RowView {
        RowView { timestamp: self.timestamp, values: values_view(self.values@) }
    }
}

/// The observations of one batch, sharing station and type.
#[derive(Clone, Debug, PartialEq, Eq)]
pub struct ObsinnChunk {
    pub station_id: i32,
    pub type_id: i32,
    pub columns: Vec<ObsinnId>,
    pub rows: Vec<ObsinnRow>,
}

pub struct ChunkView {
    pub station_id: i32,
    pub type_id: i32,
    pub columns: Seq<IdView>,
    pub rows: Seq<RowView>,
}

impl View for ObsinnChunk {
    type V = ChunkView;

    open spec fn view(&self) -> ChunkView {
        ChunkView {
            station_id: self.station_id,
            type_id: self.type_id,
            columns: ids_view(self.columns@),
            rows: rows_view(self.rows@),
        }
    }
}

/// A single observation: time, column and value.
#[derive(Clone, Debug, PartialEq, Eq)]
pub struct ObsinnObs {
    pub timestamp: ObsTime,
    pub id: ObsinnId,
    pub value: ObsType,
}

pub struct ObsView {
    pub timestamp: ObsTime,
    pub id: IdView,
    pub value: ValueView,
}

impl View for ObsinnObs {
    type V = ObsView;

    open spec fn view(&self) -> ObsView {
        ObsView { timestamp: self.timestamp, id: self.id@, value: self.value@ }
    }
}

/// The header line's fields.
#[derive(Clone, Copy, Debug, PartialEq, Eq)]
pub struct ObsinnHeader {
    pub station_id: i32,
    pub type_id: i32,
    pub message_id: usize,
}

// ----- the batch grammar -----

pub open spec fn word_kldata() -> Seq<char> {
    seq!['k', 'l', 'd', 'a', 't', 'a']
}

pub open spec fn word_add() -> Seq<char> {
    seq!['a', 'd', 'd']
}

pub open spec fn word_nationalnr() -> Seq<char> {
    seq!['n', 'a', 't', 'i', 'o', 'n', 'a', 'l', 'n', 'r']
}

pub open spec fn word_type() -> Seq<char> {
    seq!['t', 'y', 'p', 'e']
}

pub open spec fn word_messageid() -> Seq<char> {
    seq!['m', 'e', 's', 's', 'a', 'g', 'e', 'i', 'd']
}

pub open spec fn word_received_time() -> Seq<char> {
    seq!['r', 'e', 'c', 'e', 'i', 'v', 'e', 'd', '_', 't', 'i', 'm', 'e']
}

/// The header fields read so far.
pub struct HeaderAcc {
    pub station_id: Option<i32>,
    pub type_id: Option<i32>,
    pub message_id: Option<usize>,
}

/// Reads one `key=value` field of the header line (or the bare `add` marker).
pub open spec fn header_step(acc: HeaderAcc, f: Seq<char>) -> Option<HeaderAcc> {
    let k = first_index(f, '=');
    let key = f.take(k);
    let val = f.skip(k + 1);
    if f == word_add() {
        Some(acc)
    } else if k < 0 {
        None
    } else if key == word_nationalnr() {
        match i32_of(val) {
            Some(v) => Some(HeaderAcc { station_id: Some(v), ..acc }),
            None => None,
        }
    } else if key == word_type() {
        match i32_of(val) {
            Some(v) => Some(HeaderAcc { type_id: Some(v), ..acc }),
            None => None,
        }
    } else if key == word_messageid() {
        match usize_of(val) {
            Some(v) => Some(HeaderAcc { message_id: Some(v), ..acc }),
            None => None,
        }
    } else if key == word_received_time() {
        Some(acc)
    } else {
        None
    }
}

/// Reads the header fields in order; the first bad one spoils the header.
pub open spec fn header_fold(fields: Seq<Seq<char>>) -> Option<HeaderAcc>
    decreases fields.len(),
{
    if fields.len() == 0 {
        Some(HeaderAcc { station_id: None, type_id: None, message_id: None })
    } else {
        match header_fold(fields.drop_last()) {
            Some(acc) => header_step(acc, fields.last()),
            None => None,
        }
    }
}

/// The header a header line gives: `kldata` and then `/`-separated fields,
/// of which `nationalnr` and `type` are required.
pub open spec fn header_of(line: Seq<char>) -> Option<ObsinnHeader> {
    let fields = split_spec(line, '/');
    if fields[0] == word_kldata() {
        match header_fold(fields.skip(1)) {
            Some(acc) => if acc.station_id is Some && acc.type_id is Some {
                Some(
                    ObsinnHeader {
                        station_id: acc.station_id->0,
                        type_id: acc.type_id->0,
                        message_id: match acc.message_id {
                            Some(m) => m,
                            None => 0,
                        },
                    },
                )
            } else {
                None
            },
            None => None,
        }
    } else {
        None
    }
}

/// A column name: not empty, and free of parentheses and commas.
pub open spec fn name_ok(s: Seq<char>) -> bool {
    s.len() >= 1 && lacks(s, '(') && lacks(s, ')') && lacks(s, ',')
}

/// A run of digits naming a non-negative `i32`.
pub open spec fn index_of(s: Seq<char>) -> Option<i32> {
    if s.len() >= 1 && all_digits(s) && digits_value(s) <= i32::MAX {
        Some(digits_value(s) as i32)
    } else {
        None
    }
}

pub open spec fn prepend_ids(a: Seq<IdView>, r: Option<Seq<IdView>>) -> Option<Seq<IdView>> {
    match r {
        Some(x) => Some(a + x),
        None => None,
    }
}

/// The columns the comma-separated pieces of a column line give: each is
/// `NAME`, or `NAME(sensor` followed by the piece `level)`.
pub open spec fn columns_from(toks: Seq<Seq<char>>) -> Option<Seq<IdView>>
    decreases toks.len(),
{
    if toks.len() == 0 {
        Some(Seq::empty())
    } else {
        let t = toks[0];
        let p = first_index(t, '(');
        if p < 0 {
            if name_ok(t) {
                prepend_ids(
                    seq![IdView { code: t, sensor_and_level: None }],
                    columns_from(toks.skip(1)),
                )
            } else {
                None
            }
        } else if toks.len() >= 2 {
            let name = t.take(p);
            let st = t.skip(p + 1);
            let lt = toks[1];
            if name_ok(name) && lt.len() >= 1 && lt.last() == ')' && index_of(st) is Some
                && index_of(lt.drop_last()) is Some {
                prepend_ids(
                    seq![
                        IdView {
                            code: name,
                            sensor_and_level: Some(
                                (index_of(st)->0, index_of(lt.drop_last())->0),
                            ),
                        },
                    ],
                    columns_from(toks.skip(2)),
                )
            } else {
                None
            }
        } else {
            None
        }
    }
}

pub open spec fn columns_of(line: Seq<char>) -> Option<Seq<IdView>> {
    columns_from(split_spec(line, ','))
}

/// The value a text gives in a column: a floating-point literal where the
/// registry marks the code as scalar, opaque text otherwise.
pub open spec fn value_of(
    reg: Seq<(Seq<char>, crate::params::ParamView)>,
    code: Seq<char>,
    v: Seq<char>,
) -> Option<ValueView> {
    if is_scalar_code(reg, code) {
        if is_float_text(v) {
            Some(ValueView::Scalar(v))
        } else {
            None
        }
    } else {
        Some(ValueView::NonScalar(v))
    }
}

/// The values of a data line, read against the leading columns.
pub open spec fn values_of(
    reg: Seq<(Seq<char>, crate::params::ParamView)>,
    cols: Seq<IdView>,
    vals: Seq<Seq<char>>,
) -> Option<Seq<ValueView>>
    decreases vals.len(),
{
    if vals.len() == 0 {
        Some(Seq::empty())
    } else if vals.len() > cols.len() {
        None
    } else {
        match (
            values_of(reg, cols, vals.drop_last()),
            value_of(reg, cols[vals.len() - 1].code, vals.last()),
        ) {
            (Some(p), Some(v)) => Some(p.push(v)),
            _ => None,
        }
    }
}

/// A data line: a time, then comma-separated values.
pub open spec fn row_of(
    reg: Seq<(Seq<char>, crate::params::ParamView)>,
    cols: Seq<IdView>,
    line: Seq<char>,
) -> Option<RowView> {
    let toks = split_spec(line, ',');
    match (time_of(toks[0]), values_of(reg, cols, toks.skip(1))) {
        (Some(t), Some(vs)) => Some(RowView { timestamp: t, values: vs }),
        _ => None,
    }
}

pub open spec fn rows_of(
    reg: Seq<(Seq<char>, crate::params::ParamView)>,
    cols: Seq<IdView>,
    lines: Seq<Seq<char>>,
) -> Option<Seq<RowView>>
    decreases lines.len(),
{
    if lines.len() == 0 {
        Some(Seq::empty())
    } else {
        match (rows_of(reg, cols, lines.drop_last()), row_of(reg, cols, lines.last())) {
            (Some(p), Some(r)) => Some(p.push(r)),
            _ => None,
        }
    }
}

/// How many observations the rows hold.
pub open spec fn obs_count(rows: Seq<RowView>) -> nat
    decreases rows.len(),
{
    if rows.len() == 0 {
        0
    } else {
        obs_count(rows.drop_last()) + rows.last().values.len()
    }
}

/// What a batch gives: its message id and its observations, or `None` when
/// it is ill-formed or holds no observation.
pub open spec fn batch_of(reg: Seq<(Seq<char>, crate::params::ParamView)>, msg: Seq<char>) -> Option<
    (usize, ChunkView),
> {
    let ls = lines_spec(msg);
    if ls.len() < 2 {
        None
    } else {
        match (header_of(ls[0]), columns_of(ls[1])) {
            (Some(h), Some(cols)) => match rows_of(reg, cols, ls.skip(2)) {
                Some(rows) => if obs_count(rows) > 0 {
                    Some(
                        (
                            h.message_id,
                            ChunkView {
                                station_id: h.station_id,
                                type_id: h.type_id,
                                columns: cols,
                                rows,
                            },
                        ),
                    )
                } else {
                    None
                },
                None => None,
            },
            _ => None,
        }
    }
}

// ----- reading a batch -----

fn parse_error(msg: &str) -> (e: Error)
    ensures
        e is Parse,
{
    Error::Parse(msg.to_owned())
}

fn parse_error_with(msg: &str, detail: &[char]) -> (e: Error)
    ensures
        e is Parse,
{
    let mut cs = chars_of(msg);
    let mut i: usize = 0;
    while i < detail.len()
        decreases detail@.len() - i,
    {
        cs.push(detail[i]);
        i += 1;
    }
    Error::Parse(string_of(cs.as_slice()))
}

/// Reads the `i32` value of a header field.
pub fn parse_value(key: &[char], value: &[char]) -> (r: Result<i32, Error>)
    ensures
        match i32_of(value@) {
            Some(v) => r == Ok::<i32, Error>(v),
            None => r is Err && r->Err_0 is Parse,
        },
{
    match parse_i32(value) {
        Some(v) => Ok(v),
        None => {
            let mut cs = chars_of("invalid value ");
            let mut i: usize = 0;
            while i < value.len()
                decreases value@.len() - i,
            {
                cs.push(value[i]);
                i += 1;
            }
            let tail = chars_of(" in kldata header for key ");
            let mut j: usize = 0;
            while j < tail.len()
                decreases tail@.len() - j,
            {
                cs.push(tail[j]);
                j += 1;
            }
            Err(parse_error_with(string_of(cs.as_slice()).as_str(), key))
        },
    }
}

fn is_word(s: &[char], w: &[char]) -> (r: bool)
    ensures
        r == (s@ == w@),
{
    same_chars(s, w)
}

proof fn lemma_header_prefix(fields: Seq<Seq<char>>, k: int)
    requires
        0 <= k <= fields.len(),
        header_fold(fields.take(k)) is None,
    ensures
        header_fold(fields) is None,
    decreases fields.len(),
{
    if k == fields.len() {
        assert(fields.take(k) =~= fields);
    } else {
        assert(fields.drop_last().take(k) =~= fields.take(k));
        lemma_header_prefix(fields.drop_last(), k);
    }
}

fn header_field(acc: (Option<i32>, Option<i32>, Option<usize>), f: &[char]) -> (r: Result<
    (Option<i32>, Option<i32>, Option<usize>),
    Error,
>)
    ensures
        match header_step(HeaderAcc { station_id: acc.0, type_id: acc.1, message_id: acc.2 }, f@) {
            Some(a) => r is Ok && r->Ok_0 == (a.station_id, a.type_id, a.message_id),
            None => r is Err && r->Err_0 is Parse,
        },
{
    let add = ['a', 'd', 'd'];
    assert(add@ =~= word_add());
    if is_word(f, &add) {
        return Ok(acc);
    }
    let k = match find_char(f, '=') {
        Some(k) => k,
        None => {
            return Err(parse_error_with("unexpected field in kldata header format: ", f));
        },
    };
    proof {
        lemma_first_index(f@, '=');
    }
    let n = f.len();
    assert(k < n);
    let key = &f[0..k];
    let val = &f[k + 1..n];
    assert(key@ =~= f@.take(k as int));
    assert(val@ =~= f@.skip(k as int + 1));
    let nationalnr = ['n', 'a', 't', 'i', 'o', 'n', 'a', 'l', 'n', 'r'];
    let type_key = ['t', 'y', 'p', 'e'];
    let messageid = ['m', 'e', 's', 's', 'a', 'g', 'e', 'i', 'd'];
    let received = ['r', 'e', 'c', 'e', 'i', 'v', 'e', 'd', '_', 't', 'i', 'm', 'e'];
    assert(nationalnr@ =~= word_nationalnr());
    assert(type_key@ =~= word_type());
    assert(messageid@ =~= word_messageid());
    assert(received@ =~= word_received_time());
    if is_word(key, &nationalnr) {
        match parse_value(key, val) {
            Ok(v) => Ok((Some(v), acc.1, acc.2)),
            Err(e) => Err(e),
        }
    } else if is_word(key, &type_key) {
        match parse_value(key, val) {
            Ok(v) => Ok((acc.0, Some(v), acc.2)),
            Err(e) => Err(e),
        }
    } else if is_word(key, &messageid) {
        match parse_usize(val) {
            Some(v) => Ok((acc.0, acc.1, Some(v))),
            None => Err(parse_error_with("invalid value in kldata header for key messageid: ", val)),
        }
    } else if is_word(key, &received) {
        Ok(acc)
    } else {
        Err(parse_error_with("unexpected field in kldata header format: ", f))
    }
}

impl ObsinnHeader {
    /// Reads the header line of a batch.
    pub fn parse(line: &[char]) -> (r: Result<ObsinnHeader, Error>)
        ensures
            match header_of(line@) {
                Some(h) => r == Ok::<ObsinnHeader, Error>(h),
                None => r is Err && r->Err_0 is Parse,
            },
    {
        let fields = split_ranges(line, '/');
        let ghost fs = split_spec(line@, '/');
        proof {
            lemma_split_len(line@, '/');
        }
        let first = &line[fields[0].0..fields[0].1];
        let kldata = ['k', 'l', 'd', 'a', 't', 'a'];
        assert(kldata@ =~= word_kldata());
        if !is_word(first, &kldata) {
            return Err(parse_error("kldata indicator missing or out of order"));
        }
        let mut acc: (Option<i32>, Option<i32>, Option<usize>) = (None, None, None);
        let mut i: usize = 1;
        assert(fs.skip(1).take(0) =~= Seq::<Seq<char>>::empty());
        while i < fields.len()
            invariant
                1 <= i <= fields@.len(),
                fields@.len() == fs.len(),
                fs == split_spec(line@, '/'),
                forall|k: int|
                    0 <= k < fields@.len() ==> {
                        &&& (#[trigger] fields@[k]).0 <= fields@[k].1 <= line@.len()
                        &&& line@.subrange(fields@[k].0 as int, fields@[k].1 as int) == fs[k]
                    },
                header_fold(fs.skip(1).take(i - 1)) == Some(
                    HeaderAcc { station_id: acc.0, type_id: acc.1, message_id: acc.2 },
                ),
            decreases fields@.len() - i,
        {
            let f = &line[fields[i].0..fields[i].1];
            let ghost rest = fs.skip(1);
            assert(rest.take(i as int).drop_last() =~= rest.take(i - 1));
            assert(rest.take(i as int).last() == f@);
            match header_field(acc, f) {
                Ok(a) => {
                    acc = a;
                },
                Err(e) => {
                    proof {
                        lemma_header_prefix(rest, i as int);
                    }
                    return Err(e);
                },
            }
            i += 1;
        }
        assert(fs.skip(1).take(fs.len() - 1) =~= fs.skip(1));
        match (acc.0, acc.1) {
            (Some(station_id), Some(type_id)) => {
                let message_id = match acc.2 {
                    Some(m) => m,
                    None => 0,
                };
                Ok(ObsinnHeader { station_id, type_id, message_id })
            },
            (None, _) => Err(parse_error("missing field `nationalnr` in kldata header")),
            _ => Err(parse_error("missing field `type` in kldata header")),
        }
    }
}

fn name_valid(s: &[char]) -> (r: bool)
    ensures
        r == name_ok(s@),
{
    proof {
        lemma_first_index(s@, '(');
        lemma_first_index(s@, ')');
        lemma_first_index(s@, ',');
    }
    s.len() >= 1 && find_char(s, '(').is_none() && find_char(s, ')').is_none() && find_char(
        s,
        ',',
    ).is_none()
}

fn parse_index(s: &[char]) -> (r: Option<i32>)
    ensures
        r == index_of(s@),
{
    match digits_at_most(s, 2147483647) {
        Some(v) => Some(v as i32),
        None => None,
    }
}

pub open spec fn ids_view(cols: Seq<ObsinnId>) -> Seq<IdView> {
    cols.map_values(|c: ObsinnId| c@)
}

/// Reads the column line of a batch.
pub fn parse_columns(line: &[char]) -> (r: Result<Vec<ObsinnId>, Error>)
    ensures
        match columns_of(line@) {
            Some(cols) => r is Ok && ids_view(r->Ok_0@) == cols,
            None => r is Err && r->Err_0 is Parse,
        },
{
    let toks = split_ranges(line, ',');
    let ghost ts = split_spec(line@, ',');
    let mut cols: Vec<ObsinnId> = Vec::new();
    let mut i: usize = 0;
    assert(ts.skip(0) =~= ts);
    assert(prepend_ids(ids_view(cols@), columns_from(ts)) == columns_from(ts)) by {
        assert(ids_view(cols@) =~= Seq::<IdView>::empty());
        if let Some(x) = columns_from(ts) {
            assert(Seq::<IdView>::empty() + x =~= x);
        }
    }
    while i < toks.len()
        invariant
            0 <= i <= toks@.len(),
            toks@.len() == ts.len(),
            ts == split_spec(line@, ','),
            forall|k: int|
                0 <= k < toks@.len() ==> {
                    &&& (#[trigger] toks@[k]).0 <= toks@[k].1 <= line@.len()
                    &&& line@.subrange(toks@[k].0 as int, toks@[k].1 as int) == ts[k]
                },
            columns_from(ts) == prepend_ids(ids_view(cols@), columns_from(ts.skip(i as int))),
        decreases toks@.len() - i,
    {
        let t = &line[toks[i].0..toks[i].1];
        let ghost rest = ts.skip(i as int);
        assert(rest[0] == t@);
        match find_char(t, '(') {
            None => {
                if !name_valid(t) {
                    return Err(parse_error_with("malformed column specification: ", t));
                }
                let id = ObsinnId { param_code: string_of(t), sensor_and_level: None };
                assert(rest.skip(1) =~= ts.skip(i as int + 1));
                let ghost before = ids_view(cols@);
                cols.push(id);
                assert(ids_view(cols@) =~= before + seq![id@]);
                proof {
                    if let Some(x) = columns_from(ts.skip(i as int + 1)) {
                        assert(before + (seq![id@] + x) =~= ids_view(cols@) + x);
                    }
                }
                i += 1;
            },
            Some(p) => {
                if i + 1 >= toks.len() {
                    return Err(parse_error_with("malformed column specification: ", t));
                }
                proof {
                    lemma_first_index(t@, '(');
                }
                let n = t.len();
                assert(p < n);
                let name = &t[0..p];
                let st = &t[p + 1..n];
                assert(name@ =~= t@.take(p as int));
                assert(st@ =~= t@.skip(p as int + 1));
                let lt = &line[toks[i + 1].0..toks[i + 1].1];
                assert(rest[1] == lt@);
                if !name_valid(name) || lt.len() < 1 || lt[lt.len() - 1] != ')' {
                    return Err(parse_error_with("malformed column specification: ", t));
                }
                let ln = &lt[0..lt.len() - 1];
                assert(ln@ =~= lt@.drop_last());
                let sensor = match parse_index(st) {
                    Some(v) => v,
                    None => {
                        return Err(parse_error_with("malformed column specification: ", t));
                    },
                };
                let level = match parse_index(ln) {
                    Some(v) => v,
                    None => {
                        return Err(parse_error_with("malformed column specification: ", t));
                    },
                };
                let id = ObsinnId {
                    param_code: string_of(name),
                    sensor_and_level: Some((sensor, level)),
                };
                assert(rest.skip(2) =~= ts.skip(i as int + 2));
                let ghost before = ids_view(cols@);
                cols.push(id);
                assert(ids_view(cols@) =~= before + seq![id@]);
                proof {
                    if let Some(x) = columns_from(ts.skip(i as int + 2)) {
                        assert(before + (seq![id@] + x) =~= ids_view(cols@) + x);
                    }
                }
                i += 2;
            },
        }
    }
    assert(ts.skip(ts.len() as int) =~= Seq::<Seq<char>>::empty());
    assert(ids_view(cols@) + Seq::<IdView>::empty() =~= ids_view(cols@));
    Ok(cols)
}

proof fn lemma_values_prefix(
    reg: Seq<(Seq<char>, crate::params::ParamView)>,
    cols: Seq<IdView>,
    vals: Seq<Seq<char>>,
    k: int,
)
    requires
        0 <= k <= vals.len(),
        values_of(reg, cols, vals.take(k)) is None,
    ensures
        values_of(reg, cols, vals) is None,
    decreases vals.len(),
{
    if k == vals.len() {
        assert(vals.take(k) =~= vals);
    } else {
        assert(vals.drop_last().take(k) =~= vals.take(k));
        lemma_values_prefix(reg, cols, vals.drop_last(), k);
    }
}

proof fn lemma_rows_prefix(
    reg: Seq<(Seq<char>, crate::params::ParamView)>,
    cols: Seq<IdView>,
    lines: Seq<Seq<char>>,
    k: int,
)
    requires
        0 <= k <= lines.len(),
        rows_of(reg, cols, lines.take(k)) is None,
    ensures
        rows_of(reg, cols, lines) is None,
    decreases lines.len(),
{
    if k == lines.len() {
        assert(lines.take(k) =~= lines);
    } else {
        assert(lines.drop_last().take(k) =~= lines.take(k));
        lemma_rows_prefix(reg, cols, lines.drop_last(), k);
    }
}

pub open spec fn values_view(vs: Seq<ObsType>) -> Seq<ValueView> {
    vs.map_values(|v: ObsType| v@)
}

/// Reads one data line against the columns of its batch.
pub fn parse_row(line: &[char], columns: &Vec<ObsinnId>, reg: &ParamRegistry) -> (r: Result<
    ObsinnRow,
    Error,
>)
    ensures
        match row_of(reg@, ids_view(columns@), line@) {
            Some(row) => r is Ok && r->Ok_0@ == row,
            None => r is Err && r->Err_0 is Parse,
        },
{
    let toks = split_ranges(line, ',');
    let ghost ts = split_spec(line@, ',');
    let ghost cols = ids_view(columns@);
    proof {
        lemma_split_len(line@, ',');
    }
    let raw_time = &line[toks[0].0..toks[0].1];
    let timestamp = match parse_time(raw_time) {
        Some(t) => t,
        None => {
            return Err(parse_error_with("invalid timestamp in kldata csv: ", raw_time));
        },
    };
    let ghost vals = ts.skip(1);
    let mut values: Vec<ObsType> = Vec::new();
    let mut i: usize = 1;
    assert(vals.take(0) =~= Seq::<Seq<char>>::empty());
    assert(values_view(values@) =~= Seq::<ValueView>::empty());
    while i < toks.len()
        invariant
            1 <= i <= toks@.len(),
            toks@.len() == ts.len(),
            ts == split_spec(line@, ','),
            vals == ts.skip(1),
            cols == ids_view(columns@),
            forall|k: int|
                0 <= k < toks@.len() ==> {
                    &&& (#[trigger] toks@[k]).0 <= toks@[k].1 <= line@.len()
                    &&& line@.subrange(toks@[k].0 as int, toks@[k].1 as int) == ts[k]
                },
            values_of(reg@, cols, vals.take(i - 1)) == Some(values_view(values@)),
        decreases toks@.len() - i,
    {
        let v = &line[toks[i].0..toks[i].1];
        let j = i - 1;
        assert(vals.take(i as int).drop_last() =~= vals.take(j as int));
        assert(vals.take(i as int).last() == v@);
        if j >= columns.len() {
            proof {
                lemma_values_prefix(reg@, cols, vals, i as int);
            }
            return Err(parse_error("more values than columns in kldata csv row"));
        }
        assert(cols[j as int] == columns@[j as int]@);
        let scalar = match reg.get_str(columns[j].param_code.as_str()) {
            Some(p) => p.is_scalar,
            None => false,
        };
        let value = if scalar {
            if !is_float_literal(v) {
                proof {
                    lemma_values_prefix(reg@, cols, vals, i as int);
                }
                return Err(parse_error_with("value could not be parsed as float: ", v));
            }
            ObsType::Scalar(string_of(v))
        } else {
            ObsType::NonScalar(string_of(v))
        };
        let ghost before = values_view(values@);
        values.push(value);
        assert(values_view(values@) =~= before.push(value@));
        i += 1;
    }
    assert(vals.take(vals.len() as int) =~= vals);
    Ok(ObsinnRow { timestamp, values })
}

pub open spec fn rows_view(rows: Seq<ObsinnRow>) -> Seq<RowView> {
    rows.map_values(|r: ObsinnRow| r@)
}

proof fn lemma_obs_count_prefix(rows: Seq<RowView>, k: int)
    requires
        0 <= k <= rows.len(),
    ensures
        obs_count(rows.take(k)) <= obs_count(rows),
    decreases rows.len(),
{
    if k == rows.len() {
        assert(rows.take(k) =~= rows);
    } else {
        assert(rows.drop_last().take(k) =~= rows.take(k));
        lemma_obs_count_prefix(rows.drop_last(), k);
    }
}

fn has_observations(rows: &Vec<ObsinnRow>) -> (r: bool)
    ensures
        r == (obs_count(rows_view(rows@)) > 0),
{
    let mut i: usize = 0;
    let ghost rv = rows_view(rows@);
    assert(rv.take(0) =~= Seq::<RowView>::empty());
    while i < rows.len()
        invariant
            0 <= i <= rows@.len(),
            rv == rows_view(rows@),
            obs_count(rv.take(i as int)) == 0,
        decreases rows@.len() - i,
    {
        assert(rv.take(i as int + 1).drop_last() =~= rv.take(i as int));
        if rows[i].values.len() > 0 {
            proof {
                lemma_obs_count_prefix(rv, i as int + 1);
            }
            return true;
        }
        i += 1;
    }
    assert(rv.take(rv.len() as int) =~= rv);
    false
}

/// Reads a batch: a header line, a column line and data lines. Gives the
/// message id and the observations, or a parse error when the batch is
/// ill-formed or holds no observation.
pub fn parse_kldata(msg: &str, reg: &ParamRegistry) -> (r: Result<(usize, ObsinnChunk), Error>)
    ensures
        match batch_of(reg@, msg@) {
            Some((m, c)) => r is Ok && r->Ok_0.0 == m && r->Ok_0.1@ == c,
            None => r is Err && r->Err_0 is Parse,
        },
        r is Ok ==> r->Ok_0.1.columns@.len() >= 1 && times_valid(r->Ok_0.1@) && forall|k: int|
            0 <= k < r->Ok_0.1.rows@.len() ==> (#[trigger] r->Ok_0.1.rows@[k]).values@.len()
                <= r->Ok_0.1.columns@.len(),
{
    let text = chars_of(msg);
    let s = text.as_slice();
    let pieces = split_ranges(s, '\n');
    let ghost ps = split_spec(s@, '\n');
    let ghost ls = lines_spec(s@);
    proof {
        lemma_split_len(s@, '\n');
        if s@.len() > 0 {
            lemma_split_len(s@.drop_last(), '\n');
        }
    }
    let nlines: usize = if s.len() == 0 {
        0
    } else if s[s.len() - 1] == '\n' {
        pieces.len() - 1
    } else {
        pieces.len()
    };
    assert(ls.len() == nlines);
    assert(forall|k: int| 0 <= k < nlines ==> ls[k] == ps[k]);
    if nlines < 2 {
        return Err(parse_error("kldata message contained too few lines"));
    }
    let header = match ObsinnHeader::parse(&s[pieces[0].0..pieces[0].1]) {
        Ok(h) => h,
        Err(e) => {
            return Err(e);
        },
    };
    let columns = match parse_columns(&s[pieces[1].0..pieces[1].1]) {
        Ok(c) => c,
        Err(e) => {
            return Err(e);
        },
    };
    let ghost cols = ids_view(columns@);
    let ghost body = ls.skip(2);
    let mut rows: Vec<ObsinnRow> = Vec::new();
    let mut k: usize = 2;
    assert(body.take(0) =~= Seq::<Seq<char>>::empty());
    assert(rows_view(rows@) =~= Seq::<RowView>::empty());
    while k < nlines
        invariant
            2 <= k <= nlines,
            nlines == ls.len(),
            nlines <= pieces@.len(),
            pieces@.len() == ps.len(),
            body == ls.skip(2),
            cols == ids_view(columns@),
            ls == lines_spec(msg@),
            header_of(ls[0]) == Some(header),
            columns_of(ls[1]) == Some(cols),
            forall|j: int| 0 <= j < nlines ==> ls[j] == ps[j],
            forall|j: int|
                0 <= j < pieces@.len() ==> {
                    &&& (#[trigger] pieces@[j]).0 <= pieces@[j].1 <= s@.len()
                    &&& s@.subrange(pieces@[j].0 as int, pieces@[j].1 as int) == ps[j]
                },
            rows_of(reg@, cols, body.take(k - 2)) == Some(rows_view(rows@)),
        decreases nlines - k,
    {
        let line = &s[pieces[k].0..pieces[k].1];
        assert(body.take(k - 1).drop_last() =~= body.take(k - 2));
        assert(body.take(k - 1).last() == line@);
        match parse_row(line, &columns, reg) {
            Ok(row) => {
                let ghost before = rows_view(rows@);
                rows.push(row);
                assert(rows_view(rows@) =~= before.push(row@));
            },
            Err(e) => {
                proof {
                    lemma_rows_prefix(reg@, cols, body, k - 1);
                }
                return Err(e);
            },
        }
        k += 1;
    }
    assert(body.take(body.len() as int) =~= body);
    if !has_observations(&rows) {
        return Err(parse_error("empty row in kldata csv"));
    }
    proof {
        crate::batch_laws::lemma_batch_emittable(reg@, msg@);
        let cv = ChunkView {
            station_id: header.station_id,
            type_id: header.type_id,
            columns: cols,
            rows: rows_view(rows@),
        };
        assert(batch_of(reg@, msg@) == Some((header.message_id, cv)));
        assert forall|k: int| 0 <= k < rows@.len() implies (#[trigger] rows@[k]).values@.len()
            <= columns@.len() by {
            let rk = rows_view(rows@)[k];
            assert(cv.rows[k] == rk);
            assert(rk.values.len() <= cols.len());
            assert(rk == rows@[k]@);
            assert(rk.values == values_view(rows@[k].values@));
            assert(values_view(rows@[k].values@).len() == rows@[k].values@.len());
            assert(ids_view(columns@).len() == columns@.len());
        }
    }
    Ok(
        (
            header.message_id,
            ObsinnChunk { station_id: header.station_id, type_id: header.type_id, columns, rows },
        ),
    )
}

/// The observations of the first `n` values of a row, one per value.
pub open spec fn row_obs(cols: Seq<IdView>, r: RowView, n: int) -> Seq<ObsView>
    decreases n,
{
    if n <= 0 {
        Seq::empty()
    } else {
        row_obs(cols, r, n - 1).push(
            ObsView { timestamp: r.timestamp, id: cols[n - 1], value: r.values[n - 1] },
        )
    }
}

/// The observations of the first `n` rows, row by row.
pub open spec fn rows_obs(cols: Seq<IdView>, rows: Seq<RowView>, n: int) -> Seq<ObsView>
    decreases n,
{
    if n <= 0 {
        Seq::empty()
    } else {
        rows_obs(cols, rows, n - 1) + row_obs(cols, rows[n - 1], rows[n - 1].values.len() as int)
    }
}

pub open spec fn obs_view(obs: Seq<ObsinnObs>) -> Seq<ObsView> {
    obs.map_values(|o: ObsinnObs| o@)
}

fn flatten_rows(columns: &Vec<ObsinnId>, rows: &Vec<ObsinnRow>) -> (r: Vec<ObsinnObs>)
    requires
        forall|k: int| 0 <= k < rows@.len() ==> (#[trigger] rows@[k]).values@.len() <= columns@.len(),
    ensures
        obs_view(r@) == rows_obs(ids_view(columns@), rows_view(rows@), rows@.len() as int),
{
    let ghost cols = ids_view(columns@);
    let ghost rv = rows_view(rows@);
    let mut out: Vec<ObsinnObs> = Vec::new();
    let mut i: usize = 0;
    assert(obs_view(out@) =~= Seq::<ObsView>::empty());
    while i < rows.len()
        invariant
            0 <= i <= rows@.len(),
            cols == ids_view(columns@),
            rv == rows_view(rows@),
            forall|k: int| 0 <= k < rows@.len() ==> (#[trigger] rows@[k]).values@.len() <= columns@.len(),
            obs_view(out@) == rows_obs(cols, rv, i as int),
        decreases rows@.len() - i,
    {
        let row = &rows[i];
        assert(rv[i as int] == row@);
        let ghost base = obs_view(out@);
        let mut j: usize = 0;
        assert(base + row_obs(cols, row@, 0) =~= base);
        while j < row.values.len()
            invariant
                0 <= j <= row.values@.len(),
                row.values@.len() <= columns@.len(),
                cols == ids_view(columns@),
                obs_view(out@) == base + row_obs(cols, row@, j as int),
            decreases row.values@.len() - j,
        {
            let o = ObsinnObs {
                timestamp: row.timestamp,
                id: columns[j].copied(),
                value: row.values[j].copied(),
            };
            assert(cols[j as int] == columns@[j as int]@);
            assert(row@.values[j as int] == row.values@[j as int]@);
            let ghost before = obs_view(out@);
            out.push(o);
            assert(obs_view(out@) =~= before.push(o@));
            assert(base + row_obs(cols, row@, j as int + 1) =~= before.push(o@));
            j += 1;
        }
        i += 1;
    }
    out
}

impl ObsinnChunk {
    /// The observations of the batch, row by row, each with its column.
    pub fn observations(&self) -> (r: Vec<ObsinnObs>)
        requires
            forall|k: int|
                0 <= k < self.rows@.len() ==> (#[trigger] self.rows@[k]).values@.len()
                    <= self.columns@.len(),
        ensures
            obs_view(r@) == rows_obs(self@.columns, self@.rows, self@.rows.len() as int),
    {
        flatten_rows(&self.columns, &self.rows)
    }
}

/// Reads the data lines of a batch against its columns, and gives their
/// observations; a parse error when a line is ill-formed or there is no
/// observation at all.
pub fn parse_obs(body: &str, columns: &Vec<ObsinnId>, reg: &ParamRegistry) -> (r: Result<
    Vec<ObsinnObs>,
    Error,
>)
    ensures
        match rows_of(reg@, ids_view(columns@), lines_spec(body@)) {
            Some(rows) => if obs_count(rows) > 0 {
                r is Ok && obs_view(r->Ok_0@) == rows_obs(ids_view(columns@), rows, rows.len() as int)
            } else {
                r is Err && r->Err_0 is Parse
            },
            None => r is Err && r->Err_0 is Parse,
        },
{
    let text = chars_of(body);
    let s = text.as_slice();
    let pieces = split_ranges(s, '\n');
    let ghost ps = split_spec(s@, '\n');
    let ghost ls = lines_spec(s@);
    let ghost cols = ids_view(columns@);
    proof {
        lemma_split_len(s@, '\n');
        if s@.len() > 0 {
            lemma_split_len(s@.drop_last(), '\n');
        }
    }
    let nlines: usize = if s.len() == 0 {
        0
    } else if s[s.len() - 1] == '\n' {
        pieces.len() - 1
    } else {
        pieces.len()
    };
    assert(ls.len() == nlines);
    let mut rows: Vec<ObsinnRow> = Vec::new();
    let mut k: usize = 0;
    assert(ls.take(0) =~= Seq::<Seq<char>>::empty());
    assert(rows_view(rows@) =~= Seq::<RowView>::empty());
    while k < nlines
        invariant
            0 <= k <= nlines,
            nlines == ls.len(),
            nlines <= pieces@.len(),
            pieces@.len() == ps.len(),
            ls == lines_spec(body@),
            cols == ids_view(columns@),
            forall|j: int| 0 <= j < nlines ==> ls[j] == ps[j],
            forall|j: int|
                0 <= j < pieces@.len() ==> {
                    &&& (#[trigger] pieces@[j]).0 <= pieces@[j].1 <= s@.len()
                    &&& s@.subrange(pieces@[j].0 as int, pieces@[j].1 as int) == ps[j]
                },
            rows_of(reg@, cols, ls.take(k as int)) == Some(rows_view(rows@)),
        decreases nlines - k,
    {
        let line = &s[pieces[k].0..pieces[k].1];
        assert(ls.take(k as int + 1).drop_last() =~= ls.take(k as int));
        assert(ls.take(k as int + 1).last() == line@);
        match parse_row(line, columns, reg) {
            Ok(row) => {
                let ghost before = rows_view(rows@);
                rows.push(row);
                assert(rows_view(rows@) =~= before.push(row@));
            },
            Err(e) => {
                proof {
                    lemma_rows_prefix(reg@, cols, ls, k as int + 1);
                }
                return Err(e);
            },
        }
        k += 1;
    }
    assert(ls.take(ls.len() as int) =~= ls);
    if !has_observations(&rows) {
        return Err(parse_error("empty row in kldata csv"));
    }
    proof {
        crate::batch_laws::lemma_rows_values_fit(reg@, cols, ls, rows_view(rows@));
        assert forall|j: int| 0 <= j < rows@.len() implies (#[trigger] rows@[j]).values@.len()
            <= columns@.len() by {
            let rj = rows_view(rows@)[j];
            assert(rj == rows@[j]@);
            assert(rj.values.len() <= cols.len());
            assert(rj.values == values_view(rows@[j].values@));
            assert(values_view(rows@[j].values@).len() == rows@[j].values@.len());
            assert(cols.len() == columns@.len());
        }
    }
    Ok(flatten_rows(columns, &rows))
}

// ----- writing a batch -----

/// The header line of a batch.
pub open spec fn header_fields(message_id: usize, station_id: i32, type_id: i32) -> Seq<Seq<char>> {
    seq![
        word_kldata(),
        word_nationalnr() + seq!['='] + int_text(station_id as int),
        word_type() + seq!['='] + int_text(type_id as int),
        word_messageid() + seq!['='] + nat_text(message_id as nat),
    ]
}

pub open spec fn header_text(message_id: usize, station_id: i32, type_id: i32) -> Seq<char> {
    join_spec(header_fields(message_id, station_id, type_id), '/')
}

/// The pieces a column gives in the column line.
pub open spec fn id_tokens(id: IdView) -> Seq<Seq<char>> {
    match id.sensor_and_level {
        None => seq![id.code],
        Some((s, l)) => seq![id.code + seq!['('] + int_text(s as int), int_text(l as int) + seq![')']],
    }
}

pub open spec fn column_tokens(cols: Seq<IdView>) -> Seq<Seq<char>>
    decreases cols.len(),
{
    if cols.len() == 0 {
        Seq::empty()
    } else {
        column_tokens(cols.drop_last()) + id_tokens(cols.last())
    }
}

pub open spec fn value_text(v: ValueView) -> Seq<char> {
    match v {
        ValueView::Scalar(t) => t,
        ValueView::NonScalar(t) => t,
    }
}

pub open spec fn value_texts(vs: Seq<ValueView>) -> Seq<Seq<char>> {
    vs.map_values(|v: ValueView| value_text(v))
}

pub open spec fn row_text(r: RowView) -> Seq<char> {
    join_spec(seq![time_text(r.timestamp)] + value_texts(r.values), ',')
}

/// The text of a batch with the given message id and observations.
pub open spec fn batch_text(message_id: usize, c: ChunkView) -> Seq<char> {
    join_spec(
        seq![
            header_text(message_id, c.station_id, c.type_id),
            join_spec(column_tokens(c.columns), ','),
        ] + c.rows.map_values(|r: RowView| row_text(r)),
        '\n',
    )
}

pub proof fn lemma_join_push(parts: Seq<Seq<char>>, p: Seq<char>, sep: char)
    requires
        parts.len() >= 1,
    ensures
        join_spec(parts.push(p), sep) == join_spec(parts, sep) + seq![sep] + p,
{
    assert(parts.push(p).drop_last() =~= parts);
}

fn push_all(out: &mut Vec<char>, s: &[char])
    ensures
        final(out)@ == old(out)@ + s@,
{
    let mut i: usize = 0;
    while i < s.len()
        invariant
            0 <= i <= s@.len(),
            out@ == old(out)@ + s@.take(i as int),
        decreases s@.len() - i,
    {
        out.push(s[i]);
        assert(s@.take(i as int + 1) =~= s@.take(i as int).push(s@[i as int]));
        i += 1;
    }
    assert(s@.take(s@.len() as int) =~= s@);
}

fn push_string(out: &mut Vec<char>, s: &String)
    ensures
        final(out)@ == old(out)@ + s@,
{
    let cs = chars_of(s.as_str());
    push_all(out, cs.as_slice());
}

fn push_id(out: &mut Vec<char>, id: &ObsinnId)
    ensures
        final(out)@ == old(out)@ + join_spec(id_tokens(id@), ','),
{
    push_string(out, &id.param_code);
    match id.sensor_and_level {
        None => {
            assert(join_spec(id_tokens(id@), ',') == id@.code);
        },
        Some((sensor, level)) => {
            out.push('(');
            push_i32(out, sensor);
            out.push(',');
            push_i32(out, level);
            out.push(')');
            let ghost t = id_tokens(id@);
            assert(t.drop_last() =~= seq![t[0]]);
            assert(join_spec(t.drop_last(), ',') == t[0]);
            assert(join_spec(t, ',') == t[0] + seq![','] + t[1]);
            assert(out@ =~= old(out)@ + join_spec(id_tokens(id@), ','));
        },
    }
}

proof fn lemma_join_concat(a: Seq<Seq<char>>, b: Seq<Seq<char>>, sep: char)
    requires
        a.len() >= 1,
        b.len() >= 1,
    ensures
        join_spec(a + b, sep) == join_spec(a, sep) + seq![sep] + join_spec(b, sep),
    decreases b.len(),
{
    if b.len() == 1 {
        assert(a + b =~= a.push(b[0]));
        lemma_join_push(a, b[0], sep);
    } else {
        lemma_join_concat(a, b.drop_last(), sep);
        assert((a + b).drop_last() =~= a + b.drop_last());
        assert((a + b).last() == b.last());
        assert(join_spec(a, sep) + seq![sep] + join_spec(b.drop_last(), sep) + seq![sep] + b.last()
            =~= join_spec(a, sep) + seq![sep] + (join_spec(b.drop_last(), sep) + seq![sep]
            + b.last()));
    }
}

proof fn lemma_id_tokens_len(id: IdView)
    ensures
        id_tokens(id).len() >= 1,
{
}

proof fn lemma_column_tokens_len(cols: Seq<IdView>)
    ensures
        cols.len() >= 1 ==> column_tokens(cols).len() >= 1,
    decreases cols.len(),
{
    if cols.len() >= 1 {
        lemma_column_tokens_len(cols.drop_last());
    }
}

fn push_columns(out: &mut Vec<char>, columns: &Vec<ObsinnId>)
    requires
        columns@.len() >= 1,
    ensures
        final(out)@ == old(out)@ + join_spec(column_tokens(ids_view(columns@)), ','),
{
    let ghost cols = ids_view(columns@);
    push_id(out, &columns[0]);
    assert(cols.take(1).drop_last() =~= Seq::<IdView>::empty());
    assert(cols.take(1).last() == cols[0]);
    assert(column_tokens(cols.take(1).drop_last()) == Seq::<Seq<char>>::empty());
    assert(column_tokens(cols.take(1)) =~= id_tokens(cols[0]));
    let mut i: usize = 1;
    while i < columns.len()
        invariant
            1 <= i <= columns@.len(),
            cols == ids_view(columns@),
            out@ == old(out)@ + join_spec(column_tokens(cols.take(i as int)), ','),
        decreases columns@.len() - i,
    {
        let ghost before = out@;
        out.push(',');
        push_id(out, &columns[i]);
        proof {
            let prev = cols.take(i as int);
            assert(cols.take(i as int + 1).drop_last() =~= prev);
            assert(cols.take(i as int + 1).last() == columns@[i as int]@);
            lemma_column_tokens_len(prev);
            lemma_id_tokens_len(columns@[i as int]@);
            lemma_join_concat(column_tokens(prev), id_tokens(columns@[i as int]@), ',');
            assert(out@ =~= old(out)@ + join_spec(column_tokens(cols.take(i as int + 1)), ','));
        }
        i += 1;
    }
    assert(cols.take(columns@.len() as int) =~= cols);
}

fn push_value(out: &mut Vec<char>, v: &ObsType)
    ensures
        final(out)@ == old(out)@ + value_text(v@),
{
    match v {
        ObsType::Scalar(t) => push_string(out, t),
        ObsType::NonScalar(t) => push_string(out, t),
    }
}

fn push_row(out: &mut Vec<char>, row: &ObsinnRow)
    requires
        row.timestamp.valid(),
    ensures
        final(out)@ == old(out)@ + row_text(row@),
{
    push_time(out, row.timestamp);
    let ghost texts = value_texts(row@.values);
    let ghost parts = seq![time_text(row.timestamp)] + texts;
    assert(parts.take(1) =~= seq![time_text(row.timestamp)]);
    let mut i: usize = 0;
    while i < row.values.len()
        invariant
            0 <= i <= row.values@.len(),
            texts == value_texts(row@.values),
            parts == seq![time_text(row.timestamp)] + texts,
            out@ == old(out)@ + join_spec(parts.take(i as int + 1), ','),
        decreases row.values@.len() - i,
    {
        out.push(',');
        push_value(out, &row.values[i]);
        proof {
            assert(parts.take(i as int + 2) =~= parts.take(i as int + 1).push(texts[i as int]));
            lemma_join_push(parts.take(i as int + 1), texts[i as int], ',');
        }
        i += 1;
    }
    assert(parts.take(row.values@.len() as int + 1) =~= parts);
}

/// Whether every row's time is a valid calendar instant.
pub open spec fn times_valid(c: ChunkView) -> bool {
    forall|k: int| 0 <= k < c.rows.len() ==> (#[trigger] c.rows[k]).timestamp.valid()
}

/// Writes a batch with the given message id and observations.
pub fn emit_kldata(message_id: usize, chunk: &ObsinnChunk) -> (r: String)
    requires
        chunk.columns@.len() >= 1,
        times_valid(chunk@),
    ensures
        r@ == batch_text(message_id, chunk@),
{
    let mut out: Vec<char> = Vec::new();
    let kldata = ['k', 'l', 'd', 'a', 't', 'a'];
    let nationalnr = ['n', 'a', 't', 'i', 'o', 'n', 'a', 'l', 'n', 'r', '='];
    let type_key = ['t', 'y', 'p', 'e', '='];
    let messageid = ['m', 'e', 's', 's', 'a', 'g', 'e', 'i', 'd', '='];
    push_all(&mut out, &kldata);
    out.push('/');
    push_all(&mut out, &nationalnr);
    push_i32(&mut out, chunk.station_id);
    out.push('/');
    push_all(&mut out, &type_key);
    push_i32(&mut out, chunk.type_id);
    out.push('/');
    push_all(&mut out, &messageid);
    push_nat(&mut out, message_id as u64);
    proof {
        let f = header_fields(message_id, chunk.station_id, chunk.type_id);
        assert(kldata@ =~= word_kldata());
        assert(nationalnr@ =~= word_nationalnr() + seq!['=']);
        assert(type_key@ =~= word_type() + seq!['=']);
        assert(messageid@ =~= word_messageid() + seq!['=']);
        assert(f.take(1) =~= seq![f[0]]);
        lemma_join_push(f.take(1), f[1], '/');
        assert(f.take(1).push(f[1]) =~= f.take(2));
        lemma_join_push(f.take(2), f[2], '/');
        assert(f.take(2).push(f[2]) =~= f.take(3));
        lemma_join_push(f.take(3), f[3], '/');
        assert(f.take(3).push(f[3]) =~= f);
        assert(out@ =~= header_text(message_id, chunk.station_id, chunk.type_id));
    }
    out.push('\n');
    push_columns(&mut out, &chunk.columns);
    let ghost c = chunk@;
    let ghost lines = seq![
        header_text(message_id, c.station_id, c.type_id),
        join_spec(column_tokens(c.columns), ','),
    ] + c.rows.map_values(|r: RowView| row_text(r));
    proof {
        assert(lines.take(1) =~= seq![lines[0]]);
        lemma_join_push(lines.take(1), lines[1], '\n');
        assert(lines.take(1).push(lines[1]) =~= lines.take(2));
    }
    let mut i: usize = 0;
    while i < chunk.rows.len()
        invariant
            0 <= i <= chunk.rows@.len(),
            c == chunk@,
            times_valid(c),
            lines == seq![
                header_text(message_id, c.station_id, c.type_id),
                join_spec(column_tokens(c.columns), ','),
            ] + c.rows.map_values(|r: RowView| row_text(r)),
            out@ == join_spec(lines.take(i as int + 2), '\n'),
        decreases chunk.rows@.len() - i,
    {
        out.push('\n');
        assert(c.rows[i as int] == chunk.rows@[i as int]@);
        push_row(&mut out, &chunk.rows[i]);
        proof {
            assert(lines.take(i as int + 3) =~= lines.take(i as int + 2).push(lines[i as int + 2]));
            lemma_join_push(lines.take(i as int + 2), lines[i as int + 2], '\n');
        }
        i += 1;
    }
    assert(lines.take(chunk.rows@.len() as int + 2) =~= lines);
    string_of(out.as_slice())
}

} // verus!
