use crate::kldata::ValueView;
use crate::obstime::ObsTime;
use crate::store::{
    label_pos, labels_unique, lemma_label_pos_extend, lemma_label_pos_range, series_of, store_apply, store_step, KeyView, LabelView,
    PlannedView, StoreView,
};
use vstd::prelude::*;

verus! {

/// The writes the planned observations make, given the final labels.
spec fn writes(labels: Seq<LabelView>, plan: Seq<PlannedView>) -> Seq<((i32, ObsTime), ValueView)> {
    plan.map_values(
        |o: PlannedView| ((series_of(labels, o.key)->0, o.obstime), o.value),
    )
}

/// A map after the writes, later writes winning.
spec fn write_all(m: Map<(i32, ObsTime), ValueView>, w: Seq<((i32, ObsTime), ValueView)>) -> Map<
    (i32, ObsTime),
    ValueView,
>
    decreases w.len(),
{
    if w.len() == 0 {
        m
    } else {
        write_all(m, w.drop_last()).insert(w.last().0, w.last().1)
    }
}

proof fn lemma_write_all_union(m: Map<(i32, ObsTime), ValueView>, w: Seq<((i32, ObsTime), ValueView)>)
    ensures
        write_all(m, w) == m.union_prefer_right(write_all(Map::empty(), w)),
    decreases w.len(),
{
    if w.len() == 0 {
        assert(m.union_prefer_right(Map::empty()) =~= m);
    } else {
        lemma_write_all_union(m, w.drop_last());
        assert(write_all(m, w) =~= m.union_prefer_right(write_all(Map::empty(), w)));
    }
}

proof fn lemma_write_all_twice(m: Map<(i32, ObsTime), ValueView>, w: Seq<((i32, ObsTime), ValueView)>)
    ensures
        write_all(write_all(m, w), w) == write_all(m, w),
{
    lemma_write_all_union(m, w);
    lemma_write_all_union(write_all(m, w), w);
    let f = write_all(Map::empty(), w);
    assert(m.union_prefer_right(f).union_prefer_right(f) =~= m.union_prefer_right(f));
}

spec fn extends(long: Seq<LabelView>, short: Seq<LabelView>) -> bool {
    short.len() <= long.len() && long.take(short.len() as int) == short
}

proof fn lemma_series_stable(short: Seq<LabelView>, long: Seq<LabelView>, key: KeyView)
    requires
        extends(long, short),
        series_of(short, key) is Some,
    ensures
        series_of(long, key) == series_of(short, key),
    decreases long.len(),
{
    lemma_label_pos_range(short, key);
    lemma_label_pos_extend(short, long, key);
    let p = label_pos(short, key);
    assert(long.take(short.len() as int)[p] == long[p]);
}

spec fn all_labelled(labels: Seq<LabelView>, plan: Seq<PlannedView>) -> bool {
    forall|k: int| 0 <= k < plan.len() ==> series_of(labels, (#[trigger] plan[k]).key) is Some
}

proof fn lemma_writes_stable(short: Seq<LabelView>, long: Seq<LabelView>, plan: Seq<PlannedView>)
    requires
        extends(long, short),
        all_labelled(short, plan),
    ensures
        writes(long, plan) == writes(short, plan),
{
    assert forall|k: int| 0 <= k < plan.len() implies #[trigger] writes(long, plan)[k] == writes(
        short,
        plan,
    )[k] by {
        lemma_series_stable(short, long, plan[k].key);
    }
    assert(writes(long, plan) =~= writes(short, plan));
}

proof fn lemma_extends_trans(a: Seq<LabelView>, b: Seq<LabelView>, c: Seq<LabelView>)
    requires
        extends(b, a),
        extends(c, b),
    ensures
        extends(c, a),
{
    assert(c.take(a.len() as int) =~= b.take(a.len() as int));
}

/// What a first pass does: labels only grow, every planned key ends up
/// labelled, and the values are the plan's writes against the final labels.
proof fn lemma_first_pass(s: StoreView, plan: Seq<PlannedView>)
    ensures
        extends(store_apply(s, plan).labels, s.labels),
        all_labelled(store_apply(s, plan).labels, plan),
        store_apply(s, plan).data == write_all(s.data, writes(store_apply(s, plan).labels, plan)),
    decreases plan.len(),
{
    let once = store_apply(s, plan);
    if plan.len() == 0 {
        assert(s.labels.take(s.labels.len() as int) =~= s.labels);
        assert(writes(once.labels, plan) =~= Seq::<((i32, ObsTime), ValueView)>::empty());
    } else {
        let p = plan.drop_last();
        let o = plan.last();
        let mid = store_apply(s, p);
        lemma_first_pass(s, p);
        let l0 = mid.labels;
        let l1 = once.labels;
        assert(once == store_step(mid, o));
        match series_of(l0, o.key) {
            Some(id) => {
                assert(l1 == l0);
                assert(l1.take(l0.len() as int) =~= l0);
            },
            None => {
                assert(l1 == l0.push(
                    LabelView {
                        key: o.key,
                        series_id: mid.next_id as i32,
                        param_id: o.param_id,
                        fromtime: o.obstime,
                    },
                ));
                assert(l1.take(l0.len() as int) =~= l0);
                assert(l1.drop_last() =~= l0);
            },
        }
        assert(extends(l1, l0));
        lemma_extends_trans(s.labels, l0, l1);
        assert(series_of(l1, o.key) is Some);
        assert forall|k: int| 0 <= k < plan.len() implies series_of(l1, (#[trigger] plan[k]).key) is Some by {
            if k < p.len() {
                assert(plan[k] == p[k]);
                lemma_series_stable(l0, l1, p[k].key);
            }
        }
        lemma_writes_stable(l0, l1, p);
        assert(writes(l1, plan).drop_last() =~= writes(l1, p));
        assert(writes(l1, plan).last() == ((series_of(l1, o.key)->0, o.obstime), o.value));
        match series_of(l0, o.key) {
            Some(id) => {
                lemma_series_stable(l0, l1, o.key);
            },
            None => {
            },
        }
    }
}

/// A pass over labels that already cover the plan only writes values.
proof fn lemma_second_pass(t: StoreView, plan: Seq<PlannedView>)
    requires
        all_labelled(t.labels, plan),
    ensures
        store_apply(t, plan) == (StoreView { data: write_all(t.data, writes(t.labels, plan)), ..t }),
    decreases plan.len(),
{
    if plan.len() == 0 {
        assert(writes(t.labels, plan) =~= Seq::<((i32, ObsTime), ValueView)>::empty());
    } else {
        let p = plan.drop_last();
        assert forall|k: int| 0 <= k < p.len() implies series_of(t.labels, (#[trigger] p[k]).key) is Some by {
            assert(p[k] == plan[k]);
        }
        lemma_second_pass(t, p);
        assert(series_of(t.labels, plan[plan.len() - 1].key) is Some);
        assert(writes(t.labels, plan).drop_last() =~= writes(t.labels, p));
    }
}

/// Ingesting the same observations twice leaves the store as ingesting them
/// once: no label and no value is added or changed by the second pass.
pub proof fn lemma_ingest_idempotent(s: StoreView, plan: Seq<PlannedView>)
    ensures
        store_apply(store_apply(s, plan), plan) == store_apply(s, plan),
{
    let once = store_apply(s, plan);
    lemma_first_pass(s, plan);
    lemma_second_pass(once, plan);
    lemma_write_all_twice(s.data, writes(once.labels, plan));
}

/// Ingestion never gives two labels the same key: at most one series
/// exists for each station, type, parameter code, level and sensor.
pub proof fn lemma_ingest_keeps_labels_unique(s: StoreView, plan: Seq<PlannedView>)
    requires
        labels_unique(s.labels),
    ensures
        labels_unique(store_apply(s, plan).labels),
    decreases plan.len(),
{
    if plan.len() > 0 {
        let p = plan.drop_last();
        let o = plan.last();
        lemma_ingest_keeps_labels_unique(s, p);
        let l0 = store_apply(s, p).labels;
        if series_of(l0, o.key) is None {
            lemma_no_label(l0, o.key);
            let l1 = store_apply(s, plan).labels;
            assert forall|i: int, j: int| 0 <= i < j < l1.len() implies (#[trigger] l1[i]).key != (
            #[trigger] l1[j]).key by {
                assert(l1[i] == l0[i]);
                if j < l0.len() {
                    assert(l1[j] == l0[j]);
                }
            }
        }
    }
}

proof fn lemma_no_label(labels: Seq<LabelView>, key: KeyView)
    requires
        series_of(labels, key) is None,
    ensures
        forall|i: int| 0 <= i < labels.len() ==> (#[trigger] labels[i]).key != key,
    decreases labels.len(),
{
    if labels.len() > 0 {
        assert(label_pos(labels.drop_last(), key) < 0);
        lemma_no_label(labels.drop_last(), key);
        assert forall|i: int| 0 <= i < labels.len() implies (#[trigger] labels[i]).key != key by {
            if i < labels.len() - 1 {
                assert(labels[i] == labels.drop_last()[i]);
            }
        }
    }
}

} // verus!
