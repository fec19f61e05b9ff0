use crate::kldata::{ObsType, ValueView};
use crate::obstime::ObsTime;
use vstd::prelude::*;

verus! {

/// The natural key of a series on the ingestion side: station, type,
/// parameter code, and sensor and level when given.
#[derive(Clone, Debug, PartialEq, Eq)]
pub struct LabelKey {
    pub station_id: i32,
    pub type_id: i32,
    pub param_code: String,
    pub sensor_and_level: Option<(i32, i32)>,
}

pub struct KeyView {
    pub station_id: i32,
    pub type_id: i32,
    pub code: Seq<char>,
    pub sensor_and_level: Option<(i32, i32)>,
}

impl View for LabelKey {
    type V = KeyView;

    open spec fn view(&self) -> KeyView {
        KeyView {
            station_id: self.station_id,
            type_id: self.type_id,
            code: self.param_code@,
            sensor_and_level: self.sensor_and_level,
        }
    }
}

impl LabelKey {
    fn same_key(&self, other: &LabelKey) -> (r: bool)
        ensures
            r == (self@ == other@),
    {
        self.station_id == other.station_id && self.type_id == other.type_id
            && self.sensor_and_level == other.sensor_and_level && self.param_code
            == other.param_code
    }

    fn duplicate(&self) -> (r: LabelKey)
        ensures
            r@ == self@,
    {
        LabelKey {
            station_id: self.station_id,
            type_id: self.type_id,
            param_code: self.param_code.clone(),
            sensor_and_level: self.sensor_and_level,
        }
    }
}

/// An observation that passed the registry and the permit check, ready to
/// be labelled and stored.
#[derive(Clone, Debug, PartialEq, Eq)]
pub struct PlannedObs {
    pub key: LabelKey,
    pub param_id: i32,
    pub obstime: ObsTime,
    pub value: ObsType,
}

pub struct PlannedView {
    pub key: KeyView,
    pub param_id: i32,
    pub obstime: ObsTime,
    pub value: ValueView,
}

impl View for PlannedObs {
    type V = PlannedView;

    open spec fn view(&self) -> PlannedView {
        PlannedView {
            key: self.key@,
            param_id: self.param_id,
            obstime: self.obstime,
            value: self.value@,
        }
    }
}

/// A series and its labels: the key it was created for, its parameter id,
/// and the time of the observation that created it.
pub struct SeriesLabel {
    pub key: LabelKey,
    pub series_id: i32,
    pub param_id: i32,
    pub fromtime: ObsTime,
}

pub struct LabelView {
    pub key: KeyView,
    pub series_id: i32,
    pub param_id: i32,
    pub fromtime: ObsTime,
}

impl View for SeriesLabel {
    type V = LabelView;

    open spec fn view(&self) -> LabelView {
        LabelView {
            key: self.key@,
            series_id: self.series_id,
            param_id: self.param_id,
            fromtime: self.fromtime,
        }
    }
}

struct StoredValue {
    series_id: i32,
    obstime: ObsTime,
    value: ObsType,
}

/// Series labels and stored values, as ingestion sees them.
pub struct StoreView {
    pub labels: Seq<LabelView>,
    pub data: Map<(i32, ObsTime), ValueView>,
    pub next_id: int,
}

/// Series, their labels, and the values stored for them. Values are keyed
/// by series and time; storing a value again replaces it.
pub struct SeriesStore {
    labels: Vec<SeriesLabel>,
    data: Vec<StoredValue>,
    next_id: i32,
}

pub open spec fn labels_view(labels: Seq<SeriesLabel>) -> Seq<LabelView> {
    labels.map_values(|l: SeriesLabel| l@)
}

spec fn data_key(v: StoredValue) -> (i32, ObsTime) {
    (v.series_id, v.obstime)
}

/// The values of the stored rows, later rows overriding earlier ones.
spec fn data_map(rows: Seq<StoredValue>) -> Map<(i32, ObsTime), ValueView>
    decreases rows.len(),
{
    if rows.len() == 0 {
        Map::empty()
    } else {
        data_map(rows.drop_last()).insert(data_key(rows.last()), rows.last().value@)
    }
}

impl View for SeriesStore {
    type V = StoreView;

    closed spec fn view(&self) -> StoreView {
        StoreView {
            labels: labels_view(self.labels@),
            data: data_map(self.data@),
            next_id: self.next_id as int,
        }
    }
}

/// No two labels share a key.
pub open spec fn labels_unique(labels: Seq<LabelView>) -> bool {
    forall|i: int, j: int|
        0 <= i < j < labels.len() ==> (#[trigger] labels[i]).key != (#[trigger] labels[j]).key
}

/// Where the first label with `key` stands, or -1.
pub open spec fn label_pos(labels: Seq<LabelView>, key: KeyView) -> int
    decreases labels.len(),
{
    if labels.len() == 0 {
        -1
    } else {
        let p = label_pos(labels.drop_last(), key);
        if p >= 0 {
            p
        } else if labels.last().key == key {
            labels.len() - 1
        } else {
            -1
        }
    }
}

/// The series a key is labelled with.
pub open spec fn series_of(labels: Seq<LabelView>, key: KeyView) -> Option<i32> {
    let p = label_pos(labels, key);
    if p >= 0 {
        Some(labels[p].series_id)
    } else {
        None
    }
}

/// Labels one observation, creating its series on first sight, and stores
/// its value.
pub open spec fn store_step(s: StoreView, o: PlannedView) -> StoreView {
    match series_of(s.labels, o.key) {
        Some(id) => StoreView { data: s.data.insert((id, o.obstime), o.value), ..s },
        None => StoreView {
            labels: s.labels.push(
                LabelView {
                    key: o.key,
                    series_id: s.next_id as i32,
                    param_id: o.param_id,
                    fromtime: o.obstime,
                },
            ),
            data: s.data.insert((s.next_id as i32, o.obstime), o.value),
            next_id: s.next_id + 1,
        },
    }
}

/// The store after ingesting the planned observations in order.
pub open spec fn store_apply(s: StoreView, plan: Seq<PlannedView>) -> StoreView
    decreases plan.len(),
{
    if plan.len() == 0 {
        s
    } else {
        store_step(store_apply(s, plan.drop_last()), plan.last())
    }
}

impl SeriesStore {
    /// Well-formed: stored rows have distinct keys, labels have distinct
    /// keys, and the next series id is not negative.
    pub closed spec fn wf(&self) -> bool {
        &&& forall|i: int, j: int|
            0 <= i < j < self.data@.len() ==> data_key(#[trigger] self.data@[i]) != data_key(
                #[trigger] self.data@[j],
            )
        &&& labels_unique(self@.labels)
        &&& self.next_id >= 0
    }

    pub fn new() -> (r: SeriesStore)
        ensures
            r.wf(),
            r@.labels.len() == 0,
            r@.data == Map::<(i32, ObsTime), ValueView>::empty(),
            r@.next_id == 1,
    {
        let r = SeriesStore { labels: Vec::new(), data: Vec::new(), next_id: 1 };
        assert(labels_view(r.labels@) =~= Seq::<LabelView>::empty());
        r
    }

    /// The labels of the store.
    pub fn labels(&self) -> (r: &Vec<SeriesLabel>)
        ensures
            labels_view(r@) == self@.labels,
    {
        &self.labels
    }

    /// How many values are stored.
    pub fn value_count(&self) -> (r: usize)
        requires
            self.wf(),
        ensures
            r == self@.data.len(),
    {
        proof {
            lemma_data_map_len(self.data@);
        }
        self.data.len()
    }

    /// The series labelled with `key`.
    pub fn find_series(&self, key: &LabelKey) -> (r: Option<i32>)
        ensures
            r == series_of(self@.labels, key@),
    {
        let mut i: usize = 0;
        let ghost lv = labels_view(self.labels@);
        assert(lv.take(0) =~= Seq::<LabelView>::empty());
        while i < self.labels.len()
            invariant
                0 <= i <= self.labels@.len(),
                lv == labels_view(self.labels@),
                lv == self@.labels,
                label_pos(lv.take(i as int), key@) == -1,
            decreases self.labels@.len() - i,
        {
            assert(lv.take(i as int + 1).drop_last() =~= lv.take(i as int));
            assert(lv.take(i as int + 1).last() == self.labels@[i as int]@);
            if self.labels[i].key.same_key(key) {
                proof {
                    lemma_label_pos_extend(lv.take(i as int + 1), lv, key@);
                }
                return Some(self.labels[i].series_id);
            }
            i += 1;
        }
        assert(lv.take(lv.len() as int) =~= lv);
        None
    }

    /// The value stored for `series_id` at `obstime`.
    pub fn stored_value(&self, series_id: i32, obstime: ObsTime) -> (r: Option<&ObsType>)
        requires
            self.wf(),
        ensures
            match r {
                Some(v) => self@.data.contains_key((series_id, obstime)) && self@.data[(
                    series_id,
                    obstime,
                )] == v@,
                None => !self@.data.contains_key((series_id, obstime)),
            },
    {
        match self.find_value(series_id, obstime) {
            Some(i) => {
                proof {
                    lemma_data_map_at(self.data@, i as int);
                }
                Some(&self.data[i].value)
            },
            None => {
                proof {
                    lemma_data_map_absent(self.data@, (series_id, obstime));
                }
                None
            },
        }
    }

    fn find_value(&self, series_id: i32, obstime: ObsTime) -> (r: Option<usize>)
        ensures
            match r {
                Some(i) => i < self.data@.len() && data_key(self.data@[i as int]) == (
                    series_id,
                    obstime,
                ),
                None => forall|j: int|
                    0 <= j < self.data@.len() ==> data_key(#[trigger] self.data@[j]) != (
                        series_id,
                        obstime,
                    ),
            },
    {
        let mut i: usize = 0;
        while i < self.data.len()
            invariant
                0 <= i <= self.data@.len(),
                forall|j: int|
                    0 <= j < i ==> data_key(#[trigger] self.data@[j]) != (series_id, obstime),
            decreases self.data@.len() - i,
        {
            if self.data[i].series_id == series_id && self.data[i].obstime == obstime {
                return Some(i);
            }
            i += 1;
        }
        None
    }

    /// Stores `value` for `series_id` at `obstime`, replacing what was there.
    fn upsert(&mut self, series_id: i32, obstime: ObsTime, value: ObsType)
        requires
            old(self).wf(),
        ensures
            final(self).wf(),
            final(self)@ == (StoreView {
                data: old(self)@.data.insert((series_id, obstime), value@),
                ..old(self)@
            }),
    {
        let ghost vv = value@;
        match self.find_value(series_id, obstime) {
            Some(i) => {
                let ghost before = self.data@;
                self.data.set(i, StoredValue { series_id, obstime, value });
                proof {
                    lemma_data_map_update(before, i as int, self.data@[i as int]);
                    assert forall|a: int, b: int|
                        0 <= a < b < self.data@.len() implies data_key(
                            #[trigger] self.data@[a],
                        ) != data_key(#[trigger] self.data@[b]) by {
                        assert(data_key(self.data@[a]) == data_key(before[a]));
                        assert(data_key(self.data@[b]) == data_key(before[b]));
                    }
                }
            },
            None => {
                let ghost before = self.data@;
                self.data.push(StoredValue { series_id, obstime, value });
                proof {
                    assert(self.data@.drop_last() =~= before);
                    assert forall|a: int, b: int|
                        0 <= a < b < self.data@.len() implies data_key(
                            #[trigger] self.data@[a],
                        ) != data_key(#[trigger] self.data@[b]) by {
                        if b == self.data@.len() - 1 {
                            assert(data_key(self.data@[a]) == data_key(before[a]));
                        } else {
                            assert(self.data@[a] == before[a]);
                            assert(self.data@[b] == before[b]);
                        }
                    }
                }
            },
        }
    }

    /// Labels one observation, creating its series on first sight, and
    /// stores its value.
    pub fn ingest(&mut self, o: &PlannedObs)
        requires
            old(self).wf(),
            old(self)@.next_id < i32::MAX,
        ensures
            final(self).wf(),
            final(self)@ == store_step(old(self)@, o@),
            final(self)@.next_id <= old(self)@.next_id + 1,
    {
        let id = match self.find_series(&o.key) {
            Some(id) => id,
            None => {
                let id = self.next_id;
                let ghost before = labels_view(self.labels@);
                let label = SeriesLabel {
                    key: o.key.duplicate(),
                    series_id: id,
                    param_id: o.param_id,
                    fromtime: o.obstime,
                };
                self.labels.push(label);
                self.next_id = id + 1;
                proof {
                    let after = labels_view(self.labels@);
                    assert(after =~= before.push(label@));
                    lemma_label_pos_none(before, o.key@);
                    assert forall|a: int, b: int|
                        0 <= a < b < after.len() implies (#[trigger] after[a]).key != (
                        #[trigger] after[b]).key by {
                        if b == after.len() - 1 {
                            assert(after[a] == before[a]);
                        } else {
                            assert(after[a] == before[a]);
                            assert(after[b] == before[b]);
                        }
                    }
                }
                id
            },
        };
        self.upsert(id, o.obstime, o.value.copied());
    }

    /// Ingests the planned observations in order.
    pub fn ingest_all(&mut self, plan: &Vec<PlannedObs>)
        requires
            old(self).wf(),
            old(self)@.next_id + plan@.len() <= i32::MAX,
        ensures
            final(self).wf(),
            final(self)@ == store_apply(old(self)@, plan@.map_values(|o: PlannedObs| o@)),
    {
        let ghost pv = plan@.map_values(|o: PlannedObs| o@);
        let mut i: usize = 0;
        assert(pv.take(0) =~= Seq::<PlannedView>::empty());
        while i < plan.len()
            invariant
                0 <= i <= plan@.len(),
                pv == plan@.map_values(|o: PlannedObs| o@),
                self.wf(),
                self@ == store_apply(old(self)@, pv.take(i as int)),
                self@.next_id <= old(self)@.next_id + i,
                old(self)@.next_id + plan@.len() <= i32::MAX,
            decreases plan@.len() - i,
        {
            assert(pv.take(i as int + 1).drop_last() =~= pv.take(i as int));
            assert(pv.take(i as int + 1).last() == plan@[i as int]@);
            self.ingest(&plan[i]);
            i += 1;
        }
        assert(pv.take(plan@.len() as int) =~= pv);
    }
}

proof fn lemma_data_map_len(rows: Seq<StoredValue>)
    requires
        forall|i: int, j: int|
            0 <= i < j < rows.len() ==> data_key(#[trigger] rows[i]) != data_key(#[trigger] rows[j]),
    ensures
        data_map(rows).dom().finite(),
        data_map(rows).len() == rows.len(),
    decreases rows.len(),
{
    if rows.len() > 0 {
        let p = rows.drop_last();
        assert forall|i: int, j: int| 0 <= i < j < p.len() implies data_key(#[trigger] p[i])
            != data_key(#[trigger] p[j]) by {
            assert(p[i] == rows[i] && p[j] == rows[j]);
        }
        lemma_data_map_len(p);
        lemma_data_map_absent(p, data_key(rows.last()));
    }
}

proof fn lemma_data_map_absent(rows: Seq<StoredValue>, k: (i32, ObsTime))
    requires
        forall|j: int| 0 <= j < rows.len() ==> data_key(#[trigger] rows[j]) != k,
    ensures
        !data_map(rows).contains_key(k),
    decreases rows.len(),
{
    if rows.len() > 0 {
        let p = rows.drop_last();
        assert forall|j: int| 0 <= j < p.len() implies data_key(#[trigger] p[j]) != k by {
            assert(p[j] == rows[j]);
        }
        lemma_data_map_absent(p, k);
    }
}

proof fn lemma_data_map_at(rows: Seq<StoredValue>, i: int)
    requires
        0 <= i < rows.len(),
        forall|a: int, b: int|
            0 <= a < b < rows.len() ==> data_key(#[trigger] rows[a]) != data_key(#[trigger] rows[b]),
    ensures
        data_map(rows).contains_key(data_key(rows[i])),
        data_map(rows)[data_key(rows[i])] == rows[i].value@,
    decreases rows.len(),
{
    if i < rows.len() - 1 {
        let p = rows.drop_last();
        assert forall|a: int, b: int| 0 <= a < b < p.len() implies data_key(#[trigger] p[a])
            != data_key(#[trigger] p[b]) by {
            assert(p[a] == rows[a] && p[b] == rows[b]);
        }
        assert(p[i] == rows[i]);
        lemma_data_map_at(p, i);
        assert(data_key(rows[i]) != data_key(rows[rows.len() - 1]));
    }
}

proof fn lemma_data_map_update(rows: Seq<StoredValue>, i: int, x: StoredValue)
    requires
        0 <= i < rows.len(),
        data_key(x) == data_key(rows[i]),
        forall|a: int, b: int|
            0 <= a < b < rows.len() ==> data_key(#[trigger] rows[a]) != data_key(#[trigger] rows[b]),
    ensures
        data_map(rows.update(i, x)) == data_map(rows).insert(data_key(x), x.value@),
    decreases rows.len(),
{
    let u = rows.update(i, x);
    let p = rows.drop_last();
    if i == rows.len() - 1 {
        assert(u.drop_last() =~= p);
        assert(data_map(u) =~= data_map(rows).insert(data_key(x), x.value@));
    } else {
        assert forall|a: int, b: int| 0 <= a < b < p.len() implies data_key(#[trigger] p[a])
            != data_key(#[trigger] p[b]) by {
            assert(p[a] == rows[a] && p[b] == rows[b]);
        }
        lemma_data_map_update(p, i, x);
        assert(u.drop_last() =~= p.update(i, x));
        assert(u.last() == rows.last());
        assert(data_key(rows[i]) != data_key(rows[rows.len() - 1]));
        assert(data_map(u) =~= data_map(rows).insert(data_key(x), x.value@));
    }
}

/// Extending the labels keeps where a key was first found.
pub proof fn lemma_label_pos_extend(short: Seq<LabelView>, long: Seq<LabelView>, key: KeyView)
    requires
        short.len() <= long.len(),
        long.take(short.len() as int) == short,
        label_pos(short, key) >= 0,
    ensures
        label_pos(long, key) == label_pos(short, key),
    decreases long.len(),
{
    if long.len() == short.len() {
        assert(long =~= short);
    } else {
        assert(long.drop_last().take(short.len() as int) =~= short);
        lemma_label_pos_extend(short, long.drop_last(), key);
    }
}

proof fn lemma_label_pos_none(labels: Seq<LabelView>, key: KeyView)
    requires
        label_pos(labels, key) < 0,
    ensures
        forall|i: int| 0 <= i < labels.len() ==> (#[trigger] labels[i]).key != key,
    decreases labels.len(),
{
    if labels.len() > 0 {
        lemma_label_pos_none(labels.drop_last(), key);
        assert forall|i: int| 0 <= i < labels.len() implies (#[trigger] labels[i]).key != key by {
            if i < labels.len() - 1 {
                assert(labels[i] == labels.drop_last()[i]);
            }
        }
    }
}

pub proof fn lemma_label_pos_range(labels: Seq<LabelView>, key: KeyView)
    ensures
        -1 <= label_pos(labels, key) < labels.len(),
        label_pos(labels, key) >= 0 ==> labels[label_pos(labels, key)].key == key,
    decreases labels.len(),
{
    if labels.len() > 0 {
        lemma_label_pos_range(labels.drop_last(), key);
        let p = label_pos(labels.drop_last(), key);
        if p >= 0 {
            assert(labels[p] == labels.drop_last()[p]);
        }
    }
}

} // verus!
