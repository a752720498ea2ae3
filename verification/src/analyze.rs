//! Schema inference: one scan over the stored records.  Every record
//! that reads as a top-level JSON object contributes its members; for
//! each key the analyzer folds up the set of value kinds seen, the
//! distinct text values, a running max/min on the unified numeric axis,
//! and the all-or-nothing timestamp flag.
use vstd::prelude::*;

use crate::datetime::{parse_datetime_millis, rfc3339_millis};
use crate::json::{members_view, parse_record, JsonSpecValue, JsonValue};
use crate::store::{Col, ColMeta, ColMetaView};
use crate::text::strs_view;
use crate::types::{normalize_kinds, normalize_spec, KindSet};

verus! {

/// The members a record contributes: those of its object reading, or
/// none when it has no object reading.
pub open spec fn rec_of(s: Seq<char>) -> Seq<(Seq<char>, JsonSpecValue)> {
    match crate::json::parse_record_spec(s) {
        None => Seq::empty(),
        Some(m) => m,
    }
}

/// The values one record's members carry for `key`, in member order.
pub open spec fn rec_values(m: Seq<(Seq<char>, JsonSpecValue)>, key: Seq<char>) -> Seq<
    JsonSpecValue,
>
    decreases m.len(),
{
    if m.len() == 0 {
        Seq::empty()
    } else {
        let prev = rec_values(m.drop_last(), key);
        if m.last().0 == key {
            prev.push(m.last().1)
        } else {
            prev
        }
    }
}

/// Every value observed for `key` over the records, in scan order.
pub open spec fn col_values(recs: Seq<Seq<char>>, key: Seq<char>) -> Seq<JsonSpecValue>
    decreases recs.len(),
{
    if recs.len() == 0 {
        Seq::empty()
    } else {
        col_values(recs.drop_last(), key) + rec_values(rec_of(recs.last()), key)
    }
}

/// Keys after one record's members, in first-appearance order.
pub open spec fn add_keys(ks: Seq<Seq<char>>, m: Seq<(Seq<char>, JsonSpecValue)>) -> Seq<Seq<char>>
    decreases m.len(),
{
    if m.len() == 0 {
        ks
    } else {
        let prev = add_keys(ks, m.drop_last());
        if prev.contains(m.last().0) {
            prev
        } else {
            prev.push(m.last().0)
        }
    }
}

/// Every key observed over the records, in first-appearance order.
pub open spec fn keys_of(recs: Seq<Seq<char>>) -> Seq<Seq<char>>
    decreases recs.len(),
{
    if recs.len() == 0 {
        Seq::empty()
    } else {
        add_keys(keys_of(recs.drop_last()), rec_of(recs.last()))
    }
}

/// Record one value's kind.
pub open spec fn kind_into(k: KindSet, v: JsonSpecValue) -> KindSet {
    match v {
        JsonSpecValue::Null => KindSet { has_null: true, ..k },
        JsonSpecValue::True => KindSet { has_true: true, ..k },
        JsonSpecValue::False => KindSet { has_false: true, ..k },
        JsonSpecValue::Int(_) => KindSet { has_integer: true, ..k },
        JsonSpecValue::Real(_) => KindSet { has_real: true, ..k },
        JsonSpecValue::Text(_) => KindSet { has_text: true, ..k },
        JsonSpecValue::Arr(_) => KindSet { has_array: true, ..k },
        JsonSpecValue::Obj(_) => KindSet { has_object: true, ..k },
    }
}

/// The kinds observed over a value sequence.
pub open spec fn kinds_of(vals: Seq<JsonSpecValue>) -> KindSet
    decreases vals.len(),
{
    if vals.len() == 0 {
        KindSet::empty_spec()
    } else {
        kind_into(kinds_of(vals.drop_last()), vals.last())
    }
}

/// Record one value's text, keeping distinct texts in first-seen order.
pub open spec fn texts_into(ts: Seq<Seq<char>>, v: JsonSpecValue) -> Seq<Seq<char>> {
    match v {
        JsonSpecValue::Text(s) => if ts.contains(s) {
            ts
        } else {
            ts.push(s)
        },
        _ => ts,
    }
}

/// The distinct text values observed, in first-seen order.
pub open spec fn texts_of(vals: Seq<JsonSpecValue>) -> Seq<Seq<char>>
    decreases vals.len(),
{
    if vals.len() == 0 {
        Seq::empty()
    } else {
        texts_into(texts_of(vals.drop_last()), vals.last())
    }
}

/// A value's place on the unified numeric axis: numbers directly,
/// text through its timestamp reading, nothing otherwise.
pub open spec fn axis_value(v: JsonSpecValue) -> Option<i64> {
    match v {
        JsonSpecValue::Int(n) => Some(n),
        JsonSpecValue::Real(n) => Some(n),
        JsonSpecValue::Text(s) => rfc3339_millis(s),
        _ => None,
    }
}

/// Read one value's place on the unified numeric axis.
pub fn axis_value_x(v: &JsonValue) -> (r: Option<i64>)
    ensures
        r == axis_value(v@),
{
    match v {
        JsonValue::Int(n) => Some(*n),
        JsonValue::Real(n) => Some(*n),
        JsonValue::Text(s) => parse_datetime_millis(s.as_str()),
        _ => None,
    }
}

/// Fold one value into the running (min, max).
pub open spec fn mm_into(mm: Option<(i64, i64)>, v: JsonSpecValue) -> Option<(i64, i64)> {
    match axis_value(v) {
        None => mm,
        Some(n) => match mm {
            None => Some((n, n)),
            Some((lo, hi)) => Some(
                (
                    if n < lo {
                        n
                    } else {
                        lo
                    },
                    if n > hi {
                        n
                    } else {
                        hi
                    },
                ),
            ),
        },
    }
}

/// The (min, max) over every contributing value, if any contributed.
pub open spec fn minmax_of(vals: Seq<JsonSpecValue>) -> Option<(i64, i64)>
    decreases vals.len(),
{
    if vals.len() == 0 {
        None
    } else {
        mm_into(minmax_of(vals.drop_last()), vals.last())
    }
}

/// The range law: the running (min, max) exists exactly when some
/// value reads on the numeric axis, min never exceeds max, and every
/// reading lies between them.
pub proof fn lemma_minmax_bounds(vals: Seq<JsonSpecValue>)
    ensures
        (minmax_of(vals) is None) <==> (forall|i: int|
            0 <= i < vals.len() ==> axis_value(#[trigger] vals[i]) is None),
        minmax_of(vals) matches Some((lo, hi)) ==> lo <= hi && (forall|i: int|
            0 <= i < vals.len() ==> (match axis_value(#[trigger] vals[i]) {
                Some(n) => lo <= n <= hi,
                None => true,
            })),
    decreases vals.len(),
{
    if vals.len() > 0 {
        lemma_minmax_bounds(vals.drop_last());
        assert(forall|i: int|
            0 <= i < vals.len() - 1 ==> #[trigger] vals[i] == vals.drop_last()[i]);
        assert(vals.last() == vals[vals.len() - 1]);
    }
}

/// The distinct-text law: the reported text values hold no duplicates,
/// and hold a text exactly when some observed value is that text.
pub proof fn lemma_texts_distinct(vals: Seq<JsonSpecValue>)
    ensures
        forall|i: int, j: int|
            0 <= i < j < texts_of(vals).len() ==> texts_of(vals)[i] != texts_of(vals)[j],
        forall|s: Seq<char>|
            #[trigger] texts_of(vals).contains(s) <==> vals.contains(JsonSpecValue::Text(s)),
    decreases vals.len(),
{
    if vals.len() > 0 {
        lemma_texts_distinct(vals.drop_last());
        let pre = vals.drop_last();
        let pt = texts_of(pre);
        let full = texts_of(vals);
        assert(vals.last() == vals[vals.len() - 1]);
        assert(forall|i: int| 0 <= i < pre.len() ==> #[trigger] pre[i] == vals[i]);
        assert forall|s: Seq<char>| #[trigger] full.contains(s) implies vals.contains(
            JsonSpecValue::Text(s),
        ) by {
            if pt.contains(s) {
                let w = choose|w: int| 0 <= w < pre.len() && pre[w] == JsonSpecValue::Text(s);
                assert(vals[w] == JsonSpecValue::Text(s));
            } else {
                assert(vals[vals.len() - 1] == JsonSpecValue::Text(s));
            }
        }
        assert forall|s: Seq<char>| vals.contains(JsonSpecValue::Text(s)) implies #[trigger] full
            .contains(s) by {
            let w = choose|w: int| 0 <= w < vals.len() && vals[w] == JsonSpecValue::Text(s);
            if w < vals.len() - 1 {
                assert(pre[w] == JsonSpecValue::Text(s));
                assert(pt.contains(s));
                let u = choose|u: int| 0 <= u < pt.len() && pt[u] == s;
                assert(full[u] == s);
            } else {
                if pt.contains(s) {
                    let u = choose|u: int| 0 <= u < pt.len() && pt[u] == s;
                    assert(full[u] == s);
                } else {
                    assert(full[full.len() - 1] == s);
                }
            }
        }
        if vals.last() is Text && !pt.contains(texts_of(vals).last()) {
            assert(forall|i: int| 0 <= i < pt.len() ==> pt[i] != full[full.len() - 1]);
        }
    }
}

/// One value keeps the timestamp flag alive: non-empty text with a
/// timestamp reading.
pub open spec fn is_dt_value(v: JsonSpecValue) -> bool {
    match v {
        JsonSpecValue::Text(s) => s.len() > 0 && rfc3339_millis(s) is Some,
        _ => false,
    }
}

/// The all-or-nothing timestamp aggregate: true until any observed
/// value is empty or has no timestamp reading.
pub open spec fn dt_ok(vals: Seq<JsonSpecValue>) -> bool
    decreases vals.len(),
{
    if vals.len() == 0 {
        true
    } else {
        dt_ok(vals.drop_last()) && is_dt_value(vals.last())
    }
}

/// The timestamp law: the aggregate holds exactly when every single
/// observed value is non-empty text with a timestamp reading, so one
/// disqualifying value anywhere clears it for the whole pass.
pub proof fn lemma_datetime_all_or_nothing(vals: Seq<JsonSpecValue>)
    ensures
        dt_ok(vals) <==> (forall|i: int| 0 <= i < vals.len() ==> is_dt_value(#[trigger] vals[i])),
    decreases vals.len(),
{
    if vals.len() > 0 {
        lemma_datetime_all_or_nothing(vals.drop_last());
        assert(forall|i: int|
            0 <= i < vals.len() - 1 ==> #[trigger] vals[i] == vals.drop_last()[i]);
        assert(vals.last() == vals[vals.len() - 1]);
    }
}

/// Only array and object kinds observed.
pub open spec fn is_json_kinds(k: KindSet) -> bool {
    !k.has_null && !k.has_true && !k.has_false && !k.has_integer && !k.has_real && !k.has_text
        && !k.has_other
}

/// The meta reported for a column whose observed values are `vals`.
pub open spec fn meta_spec(vals: Seq<JsonSpecValue>) -> ColMetaView {
    ColMetaView {
        data_type: normalize_spec(kinds_of(vals)),
        vals: texts_of(vals),
        is_datetime: vals.len() > 0 && dt_ok(vals),
        is_json: vals.len() > 0 && is_json_kinds(kinds_of(vals)),
        max: match minmax_of(vals) {
            None => 0,
            Some((_lo, hi)) => hi,
        },
        min: match minmax_of(vals) {
            None => 0,
            Some((lo, _hi)) => lo,
        },
    }
}

/// What analysis reports for a record sequence: one column per observed
/// key, in first-appearance order, carrying only the meta facet, whose
/// fields are the folds above over that key's observed values.
pub open spec fn analysis_matches(recs: Seq<Seq<char>>, cols: Seq<Col>) -> bool {
    &&& cols.len() == keys_of(recs).len()
    &&& forall|k: int|
        0 <= k < cols.len() ==> {
            let c = #[trigger] cols[k];
            &&& c.name@ == keys_of(recs)[k]
            &&& c.filter is None
            &&& (c.meta matches Some(m) && m@ == meta_spec(col_values(recs, c.name@)))
        }
}

/// Running aggregation for one column.
struct ColObs {
    name: String,
    kinds: KindSet,
    texts: Vec<String>,
    mm: Option<(i64, i64)>,
    dt: bool,
    seen: bool,
}

/// The aggregation a column observer holds after folding `vals`.
spec fn obs_inv(o: ColObs, vals: Seq<JsonSpecValue>) -> bool {
    &&& o.kinds == kinds_of(vals)
    &&& strs_view(o.texts@) == texts_of(vals)
    &&& o.mm == minmax_of(vals)
    &&& o.dt == dt_ok(vals)
    &&& o.seen == (vals.len() > 0)
}

/// The snoc step of every fold at once.
proof fn lemma_fold_push(vals: Seq<JsonSpecValue>, x: JsonSpecValue)
    ensures
        kinds_of(vals.push(x)) == kind_into(kinds_of(vals), x),
        texts_of(vals.push(x)) == texts_into(texts_of(vals), x),
        minmax_of(vals.push(x)) == mm_into(minmax_of(vals), x),
        dt_ok(vals.push(x)) == (dt_ok(vals) && is_dt_value(x)),
{
    assert(vals.push(x).drop_last() =~= vals);
    assert(vals.push(x).last() == x);
}

fn kind_into_x(k: KindSet, v: &JsonValue) -> (r: KindSet)
    ensures
        r == kind_into(k, v@),
{
    match v {
        JsonValue::Null => KindSet { has_null: true, ..k },
        JsonValue::True => KindSet { has_true: true, ..k },
        JsonValue::False => KindSet { has_false: true, ..k },
        JsonValue::Int(_) => KindSet { has_integer: true, ..k },
        JsonValue::Real(_) => KindSet { has_real: true, ..k },
        JsonValue::Text(_) => KindSet { has_text: true, ..k },
        JsonValue::Arr(_) => KindSet { has_array: true, ..k },
        JsonValue::Obj(_) => KindSet { has_object: true, ..k },
    }
}

/// Fold one member value into a column observer.
fn obs_step(o: ColObs, v: &JsonValue) -> (r: ColObs)
    ensures
        r.name == o.name,
        r.kinds == kind_into(o.kinds, v@),
        strs_view(r.texts@) == texts_into(strs_view(o.texts@), v@),
        r.mm == mm_into(o.mm, v@),
        r.dt == (o.dt && is_dt_value(v@)),
        r.seen,
{
    let ColObs { name, kinds, mut texts, mm, dt, seen: _ } = o;
    let kinds2 = kind_into_x(kinds, v);
    let ghost ts0 = strs_view(texts@);
    let mut dt_hit = false;
    let mut c: Option<i64> = None;
    match v {
        JsonValue::Int(n) => {
            c = Some(*n);
        },
        JsonValue::Real(n) => {
            c = Some(*n);
        },
        JsonValue::Text(s) => {
            c = parse_datetime_millis(s.as_str());
            dt_hit = !s.as_str().is_empty() && c.is_some();
            let mut found = false;
            let mut i: usize = 0;
            while i < texts.len() && !found
                invariant
                    i <= texts@.len(),
                    strs_view(texts@) == ts0,
                    !found ==> forall|k: int| 0 <= k < i ==> ts0[k] != s@,
                    found ==> ts0.contains(s@),
                decreases texts@.len() - i + (if found {
                    0int
                } else {
                    1int
                }),
            {
                if texts[i] == *s {
                    found = true;
                    proof {
                        assert(ts0[i as int] == s@);
                    }
                } else {
                    i = i + 1;
                }
            }
            if !found {
                assert(!ts0.contains(s@));
                texts.push(s.clone());
                proof {
                    assert(strs_view(texts@) =~= ts0.push(s@));
                }
            }
        },
        _ => {},
    }
    proof {
        assert(c == axis_value(v@));
        assert(dt_hit == is_dt_value(v@));
        assert(strs_view(texts@) == texts_into(ts0, v@));
    }
    let mm2 = match (mm, c) {
        (mm0, None) => mm0,
        (None, Some(n)) => Some((n, n)),
        (Some((lo, hi)), Some(n)) => Some(
            (
                if n < lo {
                    n
                } else {
                    lo
                },
                if n > hi {
                    n
                } else {
                    hi
                },
            ),
        ),
    };
    ColObs { name, kinds: kinds2, texts, mm: mm2, dt: dt && dt_hit, seen: true }
}

/// Splitting one record off the scanned prefix.
proof fn lemma_scan_step(recs: Seq<Seq<char>>, ri: int)
    requires
        0 <= ri < recs.len(),
    ensures
        keys_of(recs.take(ri + 1)) == add_keys(keys_of(recs.take(ri)), rec_of(recs[ri])),
        forall|key: Seq<char>| #[trigger]
            col_values(recs.take(ri + 1), key) == col_values(recs.take(ri), key) + rec_values(
                rec_of(recs[ri]),
                key,
            ),
{
    assert(recs.take(ri + 1).drop_last() =~= recs.take(ri));
    assert(recs.take(ri + 1).last() == recs[ri]);
}

/// Splitting one member off a record's prefix.
proof fn lemma_member_step(m: Seq<(Seq<char>, JsonSpecValue)>, j: int)
    requires
        0 <= j < m.len(),
    ensures
        forall|key: Seq<char>| #[trigger]
            rec_values(m.take(j + 1), key) == (if m[j].0 == key {
                rec_values(m.take(j), key).push(m[j].1)
            } else {
                rec_values(m.take(j), key)
            }),
        forall|ks: Seq<Seq<char>>| #[trigger]
            add_keys(ks, m.take(j + 1)) == (if add_keys(ks, m.take(j)).contains(m[j].0) {
                add_keys(ks, m.take(j))
            } else {
                add_keys(ks, m.take(j)).push(m[j].0)
            }),
{
    assert(m.take(j + 1).drop_last() =~= m.take(j));
    assert(m.take(j + 1).last() == m[j]);
}

/// A key outside `ks` stays outside after keys whose names all differ
/// from it, and `add_keys` holds every member key.
proof fn lemma_add_keys_contains(ks: Seq<Seq<char>>, m: Seq<(Seq<char>, JsonSpecValue)>)
    ensures
        forall|x: Seq<char>| ks.contains(x) ==> #[trigger] add_keys(ks, m).contains(x),
        forall|j: int| 0 <= j < m.len() ==> add_keys(ks, m).contains((#[trigger] m[j]).0),
    decreases m.len(),
{
    if m.len() > 0 {
        lemma_add_keys_contains(ks, m.drop_last());
        let prev = add_keys(ks, m.drop_last());
        let full = add_keys(ks, m);
        assert forall|x: Seq<char>| prev.contains(x) implies full.contains(x) by {
            if !prev.contains(m.last().0) {
                let w = choose|w: int| 0 <= w < prev.len() && prev[w] == x;
                assert(full[w] == x);
            }
        }
        assert(full.contains(m.last().0)) by {
            if prev.contains(m.last().0) {
                let w = choose|w: int| 0 <= w < prev.len() && prev[w] == m.last().0;
                assert(full[w] == m.last().0);
            } else {
                assert(full[full.len() - 1] == m.last().0);
            }
        }
        assert(m.last() == m[m.len() - 1]);
        assert forall|j: int| 0 <= j < m.len() implies add_keys(ks, m).contains(
            (#[trigger] m[j]).0,
        ) by {
            if j < m.len() - 1 {
                assert(m.drop_last()[j] == m[j]);
                assert(prev.contains(m[j].0));
            }
        }
    }
}

/// A record carries no values for a key none of its members hold.
proof fn lemma_rec_values_absent(m: Seq<(Seq<char>, JsonSpecValue)>, key: Seq<char>)
    requires
        forall|j: int| 0 <= j < m.len() ==> (#[trigger] m[j]).0 != key,
    ensures
        rec_values(m, key) == Seq::<JsonSpecValue>::empty(),
    decreases m.len(),
{
    if m.len() > 0 {
        assert(forall|j: int|
            0 <= j < m.len() - 1 ==> #[trigger] m.drop_last()[j] == m[j]);
        lemma_rec_values_absent(m.drop_last(), key);
        assert(m.last() == m[m.len() - 1]);
    }
}

/// A key that never appeared has no observed values.
proof fn lemma_col_values_absent(recs: Seq<Seq<char>>, key: Seq<char>)
    requires
        !keys_of(recs).contains(key),
    ensures
        col_values(recs, key) == Seq::<JsonSpecValue>::empty(),
    decreases recs.len(),
{
    if recs.len() > 0 {
        let pre = recs.drop_last();
        let m = rec_of(recs.last());
        lemma_add_keys_contains(keys_of(pre), m);
        assert(!keys_of(pre).contains(key));
        lemma_col_values_absent(pre, key);
        assert forall|j: int| 0 <= j < m.len() implies (#[trigger] m[j]).0 != key by {
            assert(add_keys(keys_of(pre), m).contains(m[j].0));
        }
        lemma_rec_values_absent(m, key);
        assert(col_values(recs, key) =~= Seq::<JsonSpecValue>::empty());
    }
}

proof fn lemma_add_keys_unique(ks: Seq<Seq<char>>, m: Seq<(Seq<char>, JsonSpecValue)>)
    requires
        forall|i: int, j: int| 0 <= i < j < ks.len() ==> ks[i] != ks[j],
    ensures
        forall|i: int, j: int|
            0 <= i < j < add_keys(ks, m).len() ==> add_keys(ks, m)[i] != add_keys(ks, m)[j],
    decreases m.len(),
{
    if m.len() > 0 {
        lemma_add_keys_unique(ks, m.drop_last());
        let prev = add_keys(ks, m.drop_last());
        if !prev.contains(m.last().0) {
            assert(forall|i: int| 0 <= i < prev.len() ==> prev[i] != m.last().0);
        }
    }
}

/// Observed keys are unique, so the reported columns' names are too.
pub proof fn lemma_keys_unique(recs: Seq<Seq<char>>)
    ensures
        forall|i: int, j: int|
            0 <= i < j < keys_of(recs).len() ==> keys_of(recs)[i] != keys_of(recs)[j],
    decreases recs.len(),
{
    if recs.len() > 0 {
        lemma_keys_unique(recs.drop_last());
        lemma_add_keys_unique(keys_of(recs.drop_last()), rec_of(recs.last()));
    }
}

/// The meta a finished observer reports.
spec fn obs_meta(o: ColObs) -> ColMetaView {
    ColMetaView {
        data_type: normalize_spec(o.kinds),
        vals: strs_view(o.texts@),
        is_datetime: o.seen && o.dt,
        is_json: o.seen && is_json_kinds(o.kinds),
        max: match o.mm {
            None => 0,
            Some((_lo, hi)) => hi,
        },
        min: match o.mm {
            None => 0,
            Some((lo, _hi)) => lo,
        },
    }
}

fn obs_to_col(o: ColObs) -> (r: Col)
    ensures
        r.name == o.name,
        r.filter is None,
        r.meta matches Some(m) && m@ == obs_meta(o),
{
    let (mn, mx) = match o.mm {
        None => (0i64, 0i64),
        Some((lo, hi)) => (lo, hi),
    };
    let is_json = o.seen && !o.kinds.has_null && !o.kinds.has_true && !o.kinds.has_false
        && !o.kinds.has_integer && !o.kinds.has_real && !o.kinds.has_text && !o.kinds.has_other;
    Col {
        name: o.name,
        meta: Some(
            ColMeta {
                data_type: normalize_kinds(o.kinds),
                vals: o.texts,
                is_datetime: o.seen && o.dt,
                is_json,
                max: mx,
                min: mn,
            },
        ),
        filter: None,
    }
}

/// The table invariant: one observer per key seen so far, in
/// first-appearance order, each holding the folds over its key's
/// observed values.
spec fn table_inv(recs: Seq<Seq<char>>, extra: Seq<(Seq<char>, JsonSpecValue)>, t: Seq<
    ColObs,
>) -> bool {
    let ks = add_keys(keys_of(recs), extra);
    &&& t.len() == ks.len()
    &&& forall|k: int|
        0 <= k < t.len() ==> {
            let o = #[trigger] t[k];
            &&& o.name@ == ks[k]
            &&& obs_inv(o, col_values(recs, o.name@) + rec_values(extra, o.name@))
        }
    &&& forall|k1: int, k2: int|
        0 <= k1 < k2 < t.len() ==> (#[trigger] t[k1]).name@ != (#[trigger] t[k2]).name@
}

/// Scan the records once and report one column per key observed in any
/// record with an object reading.  Columns stand in first-appearance
/// order and carry only the meta facet.
#[verifier::rlimit(60)]
pub fn analyze(records: &Vec<String>) -> (r: Vec<Col>)
    ensures
        analysis_matches(strs_view(records@), r@),
{
    let ghost recs = strs_view(records@);
    let mut table: Vec<ColObs> = Vec::new();
    let mut ri: usize = 0;
    proof {
        assert(add_keys(keys_of(recs.take(0)), Seq::empty()) =~= Seq::<Seq<char>>::empty());
    }
    while ri < records.len()
        invariant
            ri <= records@.len(),
            recs == strs_view(records@),
            table_inv(recs.take(ri as int), Seq::empty(), table@),
        decreases records@.len() - ri,
    {
        let ghost pre = recs.take(ri as int);
        proof {
            lemma_scan_step(recs, ri as int);
            assert(recs[ri as int] == records@[ri as int]@);
        }
        match parse_record(records[ri].as_str()) {
            None => {
                proof {
                    assert(rec_of(recs[ri as int]) =~= Seq::<(Seq<char>, JsonSpecValue)>::empty());
                    assert(keys_of(recs.take(ri + 1)) == add_keys(keys_of(pre), Seq::empty()));
                    assert forall|k: int| 0 <= k < table@.len() implies {
                        let o = #[trigger] table@[k];
                        &&& o.name@ == add_keys(keys_of(recs.take(ri + 1)), Seq::empty())[k]
                        &&& obs_inv(
                            o,
                            col_values(recs.take(ri + 1), o.name@) + rec_values(
                                Seq::empty(),
                                o.name@,
                            ),
                        )
                    } by {
                        let o = table@[k];
                        assert(col_values(recs.take(ri + 1), o.name@) =~= col_values(pre, o.name@)
                            + rec_values(Seq::empty(), o.name@));
                    }
                }
            },
            Some(m) => {
                let ghost mv = members_view(m@);
                proof {
                    assert(rec_of(recs[ri as int]) == mv);
                    assert(mv.take(0) =~= Seq::<(Seq<char>, JsonSpecValue)>::empty());
                }
                let mut j: usize = 0;
                while j < m.len()
                    invariant
                        j <= m@.len(),
                        mv == members_view(m@),
                        recs == strs_view(records@),
                        ri < records@.len(),
                        recs.take(ri as int) == pre,
                        table_inv(pre, mv.take(j as int), table@),
                    decreases m@.len() - j,
                {
                    let ghost ks_pre = add_keys(keys_of(pre), mv.take(j as int));
                    proof {
                        lemma_member_step(mv, j as int);
                        assert(mv[j as int] == (m@[j as int].0@, m@[j as int].1@));
                    }
                    let key = &m[j].0;
                    let v = &m[j].1;
                    let mut found = false;
                    let mut idx: usize = 0;
                    while idx < table.len() && !found
                        invariant
                            idx <= table@.len(),
                            !found ==> forall|k: int|
                                0 <= k < idx ==> (#[trigger] table@[k]).name@ != key@,
                            found ==> idx < table@.len() && table@[idx as int].name@ == key@,
                        decreases table@.len() - idx + (if found {
                            0int
                        } else {
                            1int
                        }),
                    {
                        if table[idx].name == *key {
                            found = true;
                        } else {
                            idx = idx + 1;
                        }
                    }
                    let ghost t_pre = table@;
                    if found {
                        let ghost o_pre = table@[idx as int];
                        let ghost vals_pre = col_values(pre, o_pre.name@) + rec_values(
                            mv.take(j as int),
                            o_pre.name@,
                        );
                        let o = table.remove(idx);
                        let o2 = obs_step(o, v);
                        table.insert(idx, o2);
                        proof {
                            assert(table@ =~= t_pre.update(idx as int, o2));
                            assert(ks_pre.contains(key@)) by {
                                assert(ks_pre[idx as int] == key@);
                            }
                            lemma_fold_push(vals_pre, v@);
                            assert(vals_pre.push(v@) =~= col_values(pre, o_pre.name@)
                                + rec_values(mv.take(j + 1), o_pre.name@));
                            assert(obs_inv(o2, vals_pre.push(v@)));
                            assert forall|k: int|
                                0 <= k < table@.len() && k != idx implies rec_values(
                                mv.take(j + 1),
                                (#[trigger] table@[k]).name@,
                            ) == rec_values(mv.take(j as int), table@[k].name@) by {
                                assert(table@[k] == t_pre[k]);
                                assert(t_pre[k].name@ != key@);
                            }
                        }
                    } else {
                        proof {
                            assert(forall|k: int|
                                0 <= k < table@.len() ==> (#[trigger] table@[k]).name@ != key@);
                            assert(!ks_pre.contains(key@)) by {
                                if ks_pre.contains(key@) {
                                    let w = choose|w: int|
                                        0 <= w < ks_pre.len() && ks_pre[w] == key@;
                                    assert(table@[w].name@ == key@);
                                }
                            }
                            assert(!keys_of(pre).contains(key@)) by {
                                lemma_add_keys_contains(keys_of(pre), mv.take(j as int));
                            }
                            lemma_col_values_absent(pre, key@);
                            lemma_rec_values_absent_for_new(mv.take(j as int), key@, ks_pre, keys_of(pre));
                        }
                        let o = ColObs {
                            name: key.clone(),
                            kinds: KindSet::empty(),
                            texts: Vec::new(),
                            mm: None,
                            dt: true,
                            seen: false,
                        };
                        proof {
                            assert(strs_view(o.texts@) =~= Seq::<Seq<char>>::empty());
                            assert(obs_inv(o, Seq::empty()));
                        }
                        let o2 = obs_step(o, v);
                        table.push(o2);
                        proof {
                            lemma_fold_push(Seq::empty(), v@);
                            assert(Seq::<JsonSpecValue>::empty().push(v@) =~= col_values(
                                pre,
                                key@,
                            ) + rec_values(mv.take(j + 1), key@));
                            assert(obs_inv(o2, Seq::<JsonSpecValue>::empty().push(v@)));
                            assert forall|k: int|
                                0 <= k < t_pre.len() implies rec_values(
                                mv.take(j + 1),
                                (#[trigger] t_pre[k]).name@,
                            ) == rec_values(mv.take(j as int), t_pre[k].name@) by {
                                assert(t_pre[k].name@ != key@);
                            }
                        }
                    }
                    j = j + 1;
                }
                proof {
                    assert(mv.take(m@.len() as int) =~= mv);
                    assert forall|k: int| 0 <= k < table@.len() implies {
                        let o = #[trigger] table@[k];
                        obs_inv(o, col_values(recs.take(ri + 1), o.name@) + rec_values(
                            Seq::empty(),
                            o.name@,
                        ))
                    } by {
                        let o = table@[k];
                        assert(col_values(recs.take(ri + 1), o.name@) =~= col_values(pre, o.name@)
                            + rec_values(mv, o.name@));
                        assert(col_values(recs.take(ri + 1), o.name@) + rec_values(
                            Seq::empty(),
                            o.name@,
                        ) =~= col_values(recs.take(ri + 1), o.name@));
                    }
                    assert(add_keys(keys_of(recs.take(ri + 1)), Seq::empty()) == keys_of(
                        recs.take(ri + 1),
                    ));
                }
            },
        }
        ri = ri + 1;
    }
    proof {
        assert(recs.take(records@.len() as int) =~= recs);
    }
    let ghost table_fin = table@;
    let mut out: Vec<Col> = Vec::new();
    while table.len() > 0
        invariant
            out@.len() + table@.len() == table_fin.len(),
            table@ == table_fin.skip(out@.len() as int),
            forall|i: int|
                0 <= i < out@.len() ==> {
                    let c = #[trigger] out@[i];
                    &&& c.name == table_fin[i].name
                    &&& c.filter is None
                    &&& (c.meta matches Some(mm) && mm@ == obs_meta(table_fin[i]))
                },
        decreases table@.len(),
    {
        let ghost done = out@.len() as int;
        let o = table.remove(0);
        proof {
            assert(o == table_fin[done]);
            assert(table_fin.skip(done).drop_first() =~= table_fin.skip(done + 1));
        }
        out.push(obs_to_col(o));
    }
    proof {
        let ks = keys_of(recs);
        assert forall|k: int| 0 <= k < out@.len() implies {
            let c = #[trigger] out@[k];
            &&& c.name@ == ks[k]
            &&& c.filter is None
            &&& (c.meta matches Some(m) && m@ == meta_spec(col_values(recs, c.name@)))
        } by {
            let o = table_fin[k];
            assert(obs_inv(o, col_values(recs, o.name@) + rec_values(Seq::empty(), o.name@)));
            assert(col_values(recs, o.name@) + rec_values(Seq::empty(), o.name@) =~= col_values(
                recs,
                o.name@,
            ));
            assert(obs_meta(o) == meta_spec(col_values(recs, o.name@)));
        }
    }
    out
}

/// A fresh key has no values among members whose keys all stand in a
/// list it is outside of.
proof fn lemma_rec_values_absent_for_new(
    m: Seq<(Seq<char>, JsonSpecValue)>,
    key: Seq<char>,
    ks: Seq<Seq<char>>,
    base: Seq<Seq<char>>,
)
    requires
        ks == add_keys(base, m),
        !ks.contains(key),
    ensures
        rec_values(m, key) == Seq::<JsonSpecValue>::empty(),
{
    lemma_add_keys_contains(base, m);
    assert forall|j: int| 0 <= j < m.len() implies (#[trigger] m[j]).0 != key by {
        assert(ks.contains(m[j].0));
    }
    lemma_rec_values_absent(m, key);
}

} // verus!
