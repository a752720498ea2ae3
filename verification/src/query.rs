//! The query builder and evaluator: renders a safe, parameterized
//! projection/filter statement from the current column selection, and
//! returns typed rows in insertion order, bounded by a limit.  Column
//! names are untrusted input: each must pass the identifier grammar
//! before it is interpolated; condition values travel as bound
//! parameters, never as statement text.
use vstd::prelude::*;

use crate::analyze::axis_value;
use crate::json::{JsonSpecValue, JsonValue};
use crate::store::{Col, Condition, ConditionView};
use crate::text::{chars_of, contains_seq, contains_sub, lower_of, lowercase, strs_view};
use crate::types::DataType;

verus! {

/// One typed cell of a result row.
#[derive(Clone, Debug, PartialEq)]
pub enum CellData {
    Bool(bool),
    Text(String),
    Real(i64),
    JSON(String),
}

/// Specification-level counterpart of `CellData`.
pub enum CellDataView {
    Bool(bool),
    Text(Seq<char>),
    Real(i64),
    JSON(Seq<char>),
}

impl View for CellData {
    type V = CellDataView;

    open spec fn view(&self) -> CellDataView {
        match self {
            CellData::Bool(b) => CellDataView::Bool(*b),
            CellData::Text(s) => CellDataView::Text(s@),
            CellData::Real(n) => CellDataView::Real(*n),
            CellData::JSON(s) => CellDataView::JSON(s@),
        }
    }
}

/// One bound statement parameter.
#[derive(Clone, Debug, PartialEq)]
pub enum BindValue {
    Num(i64),
    Text(String),
}

/// Specification-level counterpart of `BindValue`.
pub enum BindValueView {
    Num(i64),
    Text(Seq<char>),
}

impl View for BindValue {
    type V = BindValueView;

    open spec fn view(&self) -> BindValueView {
        match self {
            BindValue::Num(n) => BindValueView::Num(*n),
            BindValue::Text(s) => BindValueView::Text(s@),
        }
    }
}

/// The identifier grammar for interpolated column names: ASCII
/// letters, digits and underscore, at least one character.
pub open spec fn is_ident_char(c: char) -> bool {
    let u = c as u32;
    (48 <= u <= 57) || (65 <= u <= 90) || (97 <= u <= 122) || c == '_'
}

pub open spec fn ident_ok(name: Seq<char>) -> bool {
    name.len() > 0 && forall|i: int| 0 <= i < name.len() ==> is_ident_char(#[trigger] name[i])
}

/// Check a column name against the identifier grammar.
pub fn check_ident(name: &str) -> (r: bool)
    ensures
        r == ident_ok(name@),
{
    let t = chars_of(name);
    if t.len() == 0 {
        return false;
    }
    let mut i: usize = 0;
    while i < t.len()
        invariant
            i <= t@.len(),
            t@ == name@,
            forall|k: int| 0 <= k < i ==> is_ident_char(#[trigger] name@[k]),
        decreases t@.len() - i,
    {
        let u = t[i] as u32;
        if !((48 <= u && u <= 57) || (65 <= u && u <= 90) || (97 <= u && u <= 122) || t[i] == '_') {
            return false;
        }
        i = i + 1;
    }
    true
}

/// A column takes part in the projection when the user selected it and
/// analysis has given it a type.
pub open spec fn is_selected(c: Col) -> bool {
    &&& c.filter matches Some(f) && f.should_select
    &&& c.meta is Some
}

/// The projected columns, in schema order.
pub open spec fn selected_of(cols: Seq<Col>) -> Seq<Col>
    decreases cols.len(),
{
    if cols.len() == 0 {
        Seq::empty()
    } else {
        let p = selected_of(cols.drop_last());
        if is_selected(cols.last()) {
            p.push(cols.last())
        } else {
            p
        }
    }
}

/// The projection law: a column whose filter says `should_select ==
/// false` never stands in the projection, so it reaches neither the
/// rendered statement nor any result row.
pub proof fn lemma_deselected_excluded(cols: Seq<Col>, i: int)
    requires
        0 <= i < cols.len(),
        forall|k1: int, k2: int|
            0 <= k1 < k2 < cols.len() ==> (#[trigger] cols[k1]).name@ != (#[trigger] cols[k2]).name@,
        cols[i].filter matches Some(f) && !f.should_select,
    ensures
        forall|k: int|
            0 <= k < selected_of(cols).len() ==> (#[trigger] selected_of(cols)[k]).name@
                != cols[i].name@,
    decreases cols.len(),
{
    if cols.len() > 0 {
        let pre = cols.drop_last();
        assert(forall|k: int| 0 <= k < pre.len() ==> #[trigger] pre[k] == cols[k]);
        if i < cols.len() - 1 {
            lemma_deselected_excluded(pre, i);
            if is_selected(cols.last()) {
                assert(cols.last().name@ != cols[i].name@);
            }
        } else {
            assert(!is_selected(cols.last()));
            assert forall|k: int|
                0 <= k < selected_of(pre).len() implies (#[trigger] selected_of(pre)[k]).name@
                != cols[i].name@ by {
                lemma_selected_from(pre, k);
            }
        }
    }
}

/// Every projected column is one of the schema's selected columns.
pub proof fn lemma_selected_from(cols: Seq<Col>, k: int)
    requires
        0 <= k < selected_of(cols).len(),
    ensures
        exists|j: int|
            0 <= j < cols.len() && #[trigger] cols[j] == selected_of(cols)[k] && is_selected(
                cols[j],
            ),
    decreases cols.len(),
{
    if cols.len() > 0 {
        let pre = cols.drop_last();
        if is_selected(cols.last()) && k == selected_of(cols).len() - 1 {
            assert(cols[cols.len() - 1] == selected_of(cols)[k]);
        } else {
            lemma_selected_from(pre, k);
            let j = choose|j: int|
                0 <= j < pre.len() && #[trigger] pre[j] == selected_of(pre)[k] && is_selected(
                    pre[j],
                );
            assert(cols[j] == pre[j]);
        }
    }
}

/// A projected column's condition, when it has one.
pub open spec fn col_cond(c: Col) -> ConditionView {
    match c.filter {
        Some(f) => match f.condition {
            Some(cd) => cd@,
            None => ConditionView::NumRange(0, 0),
        },
        None => ConditionView::NumRange(0, 0),
    }
}

/// A condition takes part when its column is projected and the user
/// set one.
pub open spec fn is_cond_active(c: Col) -> bool {
    is_selected(c) && (c.filter matches Some(f) && f.condition is Some)
}

/// The active predicates: one per projected column that carries a
/// condition.
pub open spec fn conds_of(cols: Seq<Col>) -> Seq<(Seq<char>, ConditionView)>
    decreases cols.len(),
{
    if cols.len() == 0 {
        Seq::empty()
    } else {
        let p = conds_of(cols.drop_last());
        let c = cols.last();
        if is_cond_active(c) {
            p.push((c.name@, col_cond(c)))
        } else {
            p
        }
    }
}

/// Whether a regular-expression pattern compiles, under the given case
/// folding.  A function of the pattern's characters and the flag alone.
pub uninterp spec fn regex_ok(pat: Seq<char>, case_sensitive: bool) -> bool;

/// Relies on regex::RegexBuilder (new, case_insensitive, build): a
/// pattern either compiles or is reported invalid, as a pure function
/// of its characters and the case flag.
#[verifier::external_body]
fn regex_compiles(pat: &str, case_sensitive: bool) -> (r: bool)
    ensures
        r == regex_ok(pat@, case_sensitive),
{
    regex::RegexBuilder::new(pat).case_insensitive(!case_sensitive).build().is_ok()
}

/// Whether a compiling pattern matches anywhere in the text, under the
/// given case folding.  A function of its arguments alone.
pub uninterp spec fn regex_found(pat: Seq<char>, hay: Seq<char>, case_sensitive: bool) -> bool;

/// Relies on regex::Regex::is_match on the pattern built by
/// regex::RegexBuilder with the same flags: whether it matches anywhere
/// in the text, a pure function of pattern, flag and text.
#[verifier::external_body]
fn regex_matches(pat: &str, hay: &str, case_sensitive: bool) -> (r: bool)
    requires
        regex_ok(pat@, case_sensitive),
    ensures
        r == regex_found(pat@, hay@, case_sensitive),
{
    match regex::RegexBuilder::new(pat).case_insensitive(!case_sensitive).build() {
        Ok(re) => re.is_match(hay),
        Err(_) => false,
    }
}

/// A condition the builder can prepare: a regular-expression match
/// needs a pattern that compiles.
pub open spec fn cond_renderable(c: ConditionView) -> bool {
    match c {
        ConditionView::TextMatch { term, reverse: _, case, regex } => !regex || regex_ok(
            term,
            case,
        ),
        _ => true,
    }
}

/// The record's value for a key: its first member with that key.
pub open spec fn lookup(m: Seq<(Seq<char>, JsonSpecValue)>, key: Seq<char>) -> Option<JsonSpecValue>
    decreases m.len(),
{
    if m.len() == 0 {
        None
    } else if m.first().0 == key {
        Some(m.first().1)
    } else {
        lookup(m.drop_first(), key)
    }
}

/// Whether a record value satisfies one condition.  A range test reads
/// the value on the unified numeric axis; membership and text match
/// (substring or regular expression) apply to text values; `reverse`
/// negates the outcome.
pub open spec fn cond_holds(v: Option<JsonSpecValue>, c: ConditionView) -> bool {
    match c {
        ConditionView::NumRange(lo, hi) => v matches Some(x) && (axis_value(x) matches Some(n)
            && lo <= n <= hi),
        ConditionView::Select { items, reverse } => ((v matches Some(JsonSpecValue::Text(s))
            && items.contains(s)) != reverse),
        ConditionView::TextMatch { term, reverse, case, regex } => ((v matches Some(
            JsonSpecValue::Text(s),
        ) && (if regex {
            regex_found(term, s, case)
        } else if case {
            contains_seq(s, term)
        } else {
            contains_seq(lower_of(s), lower_of(term))
        })) != reverse),
    }
}

/// A record passes when every active predicate holds of its value for
/// that predicate's column.
pub open spec fn row_passes(
    m: Seq<(Seq<char>, JsonSpecValue)>,
    conds: Seq<(Seq<char>, ConditionView)>,
) -> bool {
    forall|i: int|
        0 <= i < conds.len() ==> cond_holds(
            lookup(m, (#[trigger] conds[i]).0),
            conds[i].1,
        )
}

/// The declared type of a column (Text when analysis has not spoken,
/// which no projected column reaches).
pub open spec fn col_dt(c: Col) -> DataType {
    match c.meta {
        Some(m) => m.data_type,
        None => DataType::Text,
    }
}

/// The typed cell a record value yields under a column type, with the
/// defaults of the projection: empty text, false, zero, `{}`.
pub open spec fn cell_of(v: Option<JsonSpecValue>, dt: DataType) -> CellDataView {
    match dt {
        DataType::Text => CellDataView::Text(
            match v {
                Some(JsonSpecValue::Text(s)) => s,
                _ => Seq::empty(),
            },
        ),
        DataType::Bool => CellDataView::Bool(v matches Some(JsonSpecValue::True)),
        DataType::Real => CellDataView::Real(
            match v {
                Some(JsonSpecValue::Int(n)) => n,
                Some(JsonSpecValue::Real(n)) => n,
                _ => 0,
            },
        ),
        DataType::JSON => CellDataView::JSON(
            match v {
                Some(JsonSpecValue::Obj(s)) => s,
                Some(JsonSpecValue::Arr(s)) => s,
                _ => seq!['{', '}'],
            },
        ),
    }
}

/// One result row: the projected columns' cells, in projection order.
pub open spec fn row_of(m: Seq<(Seq<char>, JsonSpecValue)>, sel: Seq<Col>) -> Seq<
    (Seq<char>, CellDataView),
> {
    sel.map(|_i: int, c: Col| (c.name@, cell_of(lookup(m, c.name@), col_dt(c))))
}

/// The result rows: one per stored record with an object reading that
/// passes every predicate, in insertion order, up to `limit` rows.
pub open spec fn rows_spec(
    recs: Seq<Seq<char>>,
    sel: Seq<Col>,
    conds: Seq<(Seq<char>, ConditionView)>,
    limit: nat,
) -> Seq<Seq<(Seq<char>, CellDataView)>>
    decreases recs.len(),
{
    if recs.len() == 0 {
        Seq::empty()
    } else {
        let p = rows_spec(recs.drop_last(), sel, conds, limit);
        match crate::json::parse_record_spec(recs.last()) {
            None => p,
            Some(m) => if p.len() < limit && row_passes(m, conds) {
                p.push(row_of(m, sel))
            } else {
                p
            },
        }
    }
}

/// The names of a row's cells.
pub open spec fn row_names(row: Seq<(Seq<char>, CellDataView)>) -> Seq<Seq<char>> {
    row.map(|_i: int, p: (Seq<char>, CellDataView)| p.0)
}

/// The names of the projected columns.
pub open spec fn sel_names(sel: Seq<Col>) -> Seq<Seq<char>> {
    sel.map(|_i: int, c: Col| c.name@)
}

/// Every result row carries exactly the projected columns' names, in
/// projection order.
pub proof fn lemma_rows_names(
    recs: Seq<Seq<char>>,
    sel: Seq<Col>,
    conds: Seq<(Seq<char>, ConditionView)>,
    limit: nat,
)
    ensures
        forall|k: int|
            0 <= k < rows_spec(recs, sel, conds, limit).len() ==> row_names(
                #[trigger] rows_spec(recs, sel, conds, limit)[k],
            ) == sel_names(sel),
    decreases recs.len(),
{
    if recs.len() > 0 {
        lemma_rows_names(recs.drop_last(), sel, conds, limit);
        let p = rows_spec(recs.drop_last(), sel, conds, limit);
        let full = rows_spec(recs, sel, conds, limit);
        if full.len() > p.len() {
            let m = match crate::json::parse_record_spec(recs.last()) {
                Some(m) => m,
                None => Seq::empty(),
            };
            assert(row_names(row_of(m, sel)) =~= sel_names(sel));
        }
    }
}

/// The extraction expression for one (validated) column name.
pub open spec fn ex_text(name: Seq<char>) -> Seq<char> {
    "json_extract(entry, '$."@ + name + "')"@
}

/// One projection item: the extraction aliased to the column name.
pub open spec fn proj_item(name: Seq<char>) -> Seq<char> {
    ex_text(name) + " AS "@ + name
}

/// The comma-separated projection list.
pub open spec fn proj_text(sel: Seq<Col>) -> Seq<char>
    decreases sel.len(),
{
    if sel.len() == 0 {
        Seq::empty()
    } else if sel.len() == 1 {
        proj_item(sel.last().name@)
    } else {
        proj_text(sel.drop_last()) + ", "@ + proj_item(sel.last().name@)
    }
}

/// `n` comma-separated placeholders.
pub open spec fn placeholders(n: nat) -> Seq<char>
    decreases n,
{
    if n == 0 {
        Seq::empty()
    } else if n == 1 {
        "?"@
    } else {
        placeholders((n - 1) as nat) + ", ?"@
    }
}

/// The predicate text for one condition; every value stands as a
/// placeholder, never as text.  Membership and text-match predicates
/// are wrapped so that a record lacking the column counts as a plain
/// non-match, which a negation then keeps: the same reading the row
/// evaluator proves.  The REGEXP form expects the engine-registered
/// matcher, as the store's engine registers its other helpers.
pub open spec fn pred_text(name: Seq<char>, c: ConditionView) -> Seq<char> {
    match c {
        ConditionView::NumRange(_lo, _hi) => ex_text(name) + " BETWEEN ? AND ?"@,
        ConditionView::Select { items, reverse } => {
            let base = "COALESCE("@ + ex_text(name) + " IN ("@ + placeholders(items.len())
                + "), 0)"@;
            if reverse {
                "NOT "@ + base
            } else {
                base
            }
        },
        ConditionView::TextMatch { term: _, reverse, case, regex } => {
            let base = if regex {
                "COALESCE("@ + ex_text(name) + " REGEXP ?, 0)"@
            } else if case {
                "COALESCE(instr("@ + ex_text(name) + ", ?) > 0, 0)"@
            } else {
                "COALESCE(instr(lower("@ + ex_text(name) + "), lower(?)) > 0, 0)"@
            };
            if reverse {
                "NOT "@ + base
            } else {
                base
            }
        },
    }
}

/// The conjunction of every active predicate.
pub open spec fn where_text(conds: Seq<(Seq<char>, ConditionView)>) -> Seq<char>
    decreases conds.len(),
{
    if conds.len() == 0 {
        Seq::empty()
    } else if conds.len() == 1 {
        pred_text(conds.last().0, conds.last().1)
    } else {
        where_text(conds.drop_last()) + " AND "@ + pred_text(conds.last().0, conds.last().1)
    }
}

pub open spec fn digit_char(d: nat) -> char {
    (48 + d) as char
}

/// The decimal numeral of `n`.
pub open spec fn dec_str(n: nat) -> Seq<char>
    decreases n,
{
    if n < 10 {
        seq![digit_char(n)]
    } else {
        dec_str(n / 10).push(digit_char(n % 10))
    }
}

/// The whole rendered statement.
pub open spec fn statement_spec(
    sel: Seq<Col>,
    conds: Seq<(Seq<char>, ConditionView)>,
    limit: nat,
) -> Seq<char> {
    "SELECT "@ + proj_text(sel) + " FROM log"@ + (if conds.len() > 0 {
        " WHERE "@ + where_text(conds)
    } else {
        Seq::empty()
    }) + " LIMIT "@ + dec_str(limit)
}

/// The bound parameters one condition contributes, in placeholder
/// order.
/// The text parameters for a membership list, in order.
pub open spec fn texts_binds(items: Seq<Seq<char>>) -> Seq<BindValueView>
    decreases items.len(),
{
    if items.len() == 0 {
        Seq::empty()
    } else {
        texts_binds(items.drop_last()).push(BindValueView::Text(items.last()))
    }
}

pub open spec fn binds_one(c: ConditionView) -> Seq<BindValueView> {
    match c {
        ConditionView::NumRange(lo, hi) => seq![BindValueView::Num(lo), BindValueView::Num(hi)],
        ConditionView::Select { items, reverse: _ } => texts_binds(items),
        ConditionView::TextMatch { term, .. } => seq![BindValueView::Text(term)],
    }
}

/// Every bound parameter, in statement order.
pub open spec fn binds_of(conds: Seq<(Seq<char>, ConditionView)>) -> Seq<BindValueView>
    decreases conds.len(),
{
    if conds.len() == 0 {
        Seq::empty()
    } else {
        binds_of(conds.drop_last()) + binds_one(conds.last().1)
    }
}

/// A selected column is one of the schema's columns.
proof fn lemma_selected_contains(cols: Seq<Col>, j: int)
    requires
        0 <= j < cols.len(),
        is_selected(cols[j]),
    ensures
        exists|k: int|
            0 <= k < selected_of(cols).len() && #[trigger] selected_of(cols)[k] == cols[j],
    decreases cols.len(),
{
    if cols.len() > 0 {
        let pre = cols.drop_last();
        assert(forall|k: int| 0 <= k < pre.len() ==> #[trigger] pre[k] == cols[k]);
        if j == cols.len() - 1 {
            assert(selected_of(cols)[selected_of(cols).len() - 1] == cols[j]);
        } else {
            lemma_selected_contains(pre, j);
            let k = choose|k: int|
                0 <= k < selected_of(pre).len() && #[trigger] selected_of(pre)[k] == pre[j];
            assert(selected_of(cols)[k] == cols[j]);
        }
    }
}

/// An active condition of a schema column stands among the active
/// predicates.
proof fn lemma_conds_contains(cols: Seq<Col>, j: int)
    requires
        0 <= j < cols.len(),
        is_cond_active(cols[j]),
    ensures
        exists|k: int|
            0 <= k < conds_of(cols).len() && #[trigger] conds_of(cols)[k] == (
                cols[j].name@,
                col_cond(cols[j]),
            ),
    decreases cols.len(),
{
    if cols.len() > 0 {
        let pre = cols.drop_last();
        assert(forall|k: int| 0 <= k < pre.len() ==> #[trigger] pre[k] == cols[k]);
        if j == cols.len() - 1 {
            assert(conds_of(cols)[conds_of(cols).len() - 1] == (cols[j].name@, col_cond(cols[j])));
        } else {
            lemma_conds_contains(pre, j);
            let k = choose|k: int|
                0 <= k < conds_of(pre).len() && #[trigger] conds_of(pre)[k] == (
                    pre[j].name@,
                    col_cond(pre[j]),
                );
            assert(conds_of(cols)[k] == (cols[j].name@, col_cond(cols[j])));
        }
    }
}

/// Every active predicate comes from some schema column.
proof fn lemma_conds_from(cols: Seq<Col>, k: int)
    requires
        0 <= k < conds_of(cols).len(),
    ensures
        exists|j: int|
            0 <= j < cols.len() && is_cond_active(#[trigger] cols[j]) && conds_of(cols)[k] == (
                cols[j].name@,
                col_cond(cols[j]),
            ),
    decreases cols.len(),
{
    if cols.len() > 0 {
        let pre = cols.drop_last();
        if is_cond_active(cols.last()) && k == conds_of(cols).len() - 1 {
            assert(is_cond_active(cols[cols.len() - 1]));
            assert(conds_of(cols)[k] == (
                cols[cols.len() - 1].name@,
                col_cond(cols[cols.len() - 1]),
            ));
        } else {
            lemma_conds_from(pre, k);
            let j = choose|j: int|
                0 <= j < pre.len() && is_cond_active(#[trigger] pre[j]) && conds_of(pre)[k] == (
                    pre[j].name@,
                    col_cond(pre[j]),
                );
            assert(cols[j] == pre[j]);
        }
    }
}

fn is_selected_x(c: &Col) -> (r: bool)
    ensures
        r == is_selected(*c),
{
    match &c.filter {
        Some(f) => f.should_select && c.meta.is_some(),
        None => false,
    }
}

fn is_cond_active_x(c: &Col) -> (r: bool)
    ensures
        r == is_cond_active(*c),
{
    match &c.filter {
        Some(f) => f.should_select && c.meta.is_some() && f.condition.is_some(),
        None => false,
    }
}

/// The spec value behind an optional borrowed value.
pub open spec fn ov(v: Option<&JsonValue>) -> Option<JsonSpecValue> {
    match v {
        None => None,
        Some(x) => Some(x@),
    }
}

proof fn lemma_lookup_at(m: Seq<(Seq<char>, JsonSpecValue)>, key: Seq<char>, j: int)
    requires
        0 <= j < m.len(),
        m[j].0 == key,
        forall|k: int| 0 <= k < j ==> (#[trigger] m[k]).0 != key,
    ensures
        lookup(m, key) == Some(m[j].1),
    decreases m.len(),
{
    if j > 0 {
        assert(forall|k: int|
            0 <= k < m.drop_first().len() ==> #[trigger] m.drop_first()[k] == m[k + 1]);
        assert(forall|k: int|
            0 <= k < j - 1 ==> (#[trigger] m.drop_first()[k]).0 != key);
        lemma_lookup_at(m.drop_first(), key, j - 1);
    }
}

proof fn lemma_lookup_absent(m: Seq<(Seq<char>, JsonSpecValue)>, key: Seq<char>)
    requires
        forall|k: int| 0 <= k < m.len() ==> (#[trigger] m[k]).0 != key,
    ensures
        lookup(m, key) is None,
    decreases m.len(),
{
    if m.len() > 0 {
        assert(forall|k: int|
            0 <= k < m.drop_first().len() ==> #[trigger] m.drop_first()[k] == m[k + 1]);
        lemma_lookup_absent(m.drop_first(), key);
    }
}

/// Find the record's value for a key: its first member with that key.
fn lookup_x<'a>(m: &'a crate::json::Members, key: &String) -> (r: Option<&'a JsonValue>)
    ensures
        ov(r) == lookup(crate::json::members_view(m@), key@),
{
    let ghost mv = crate::json::members_view(m@);
    let mut j: usize = 0;
    while j < m.len()
        invariant
            j <= m@.len(),
            mv == crate::json::members_view(m@),
            forall|k: int| 0 <= k < j ==> (#[trigger] mv[k]).0 != key@,
        decreases m@.len() - j,
    {
        if m[j].0 == *key {
            proof {
                assert(mv[j as int].0 == key@);
                lemma_lookup_at(mv, key@, j as int);
            }
            return Some(&m[j].1);
        }
        proof {
            assert(mv[j as int].0 == m@[j as int].0@);
        }
        j = j + 1;
    }
    proof {
        lemma_lookup_absent(mv, key@);
    }
    None
}

/// Decide one condition against a record value.
fn cond_holds_x(v: Option<&JsonValue>, c: &Condition) -> (r: bool)
    requires
        cond_renderable(c@),
    ensures
        r == cond_holds(ov(v), c@),
{
    match c {
        Condition::NumRange(lo, hi) => match v {
            Some(x) => match crate::analyze::axis_value_x(x) {
                Some(n) => *lo <= n && n <= *hi,
                None => false,
            },
            None => false,
        },
        Condition::Select { items, reverse } => {
            let base = match v {
                Some(JsonValue::Text(s)) => {
                    let ghost iv = strs_view(items@);
                    let mut found = false;
                    let mut k: usize = 0;
                    while k < items.len() && !found
                        invariant
                            k <= items@.len(),
                            iv == strs_view(items@),
                            !found ==> forall|q: int| 0 <= q < k ==> iv[q] != s@,
                            found ==> iv.contains(s@),
                        decreases items@.len() - k + (if found {
                            0int
                        } else {
                            1int
                        }),
                    {
                        if items[k] == *s {
                            found = true;
                            proof {
                                assert(iv[k as int] == s@);
                            }
                        } else {
                            k = k + 1;
                        }
                    }
                    proof {
                        if !found {
                            assert(!iv.contains(s@));
                        }
                    }
                    found
                },
                _ => false,
            };
            base != *reverse
        },
        Condition::TextMatch { term, reverse, case, regex } => {
            let base = match v {
                Some(JsonValue::Text(s)) => {
                    if *regex {
                        regex_matches(term.as_str(), s.as_str(), *case)
                    } else if *case {
                        let hay = chars_of(s.as_str());
                        let needle = chars_of(term.as_str());
                        contains_sub(&hay, &needle)
                    } else {
                        let ls = lowercase(s.as_str());
                        let lt = lowercase(term.as_str());
                        let hay = chars_of(ls.as_str());
                        let needle = chars_of(lt.as_str());
                        contains_sub(&hay, &needle)
                    }
                },
                _ => false,
            };
            base != *reverse
        },
    }
}

/// Build one typed cell from a record value and a column type.
fn cell_x(v: Option<&JsonValue>, dt: DataType) -> (r: CellData)
    ensures
        r@ == cell_of(ov(v), dt),
{
    match dt {
        DataType::Text => match v {
            Some(JsonValue::Text(s)) => CellData::Text(s.clone()),
            _ => {
                let e = String::new();
                proof {
                    assert(e@ =~= Seq::<char>::empty());
                }
                CellData::Text(e)
            },
        },
        DataType::Bool => {
            let b = match v {
                Some(JsonValue::True) => true,
                _ => false,
            };
            CellData::Bool(b)
        },
        DataType::Real => {
            let n = match v {
                Some(JsonValue::Int(n)) => *n,
                Some(JsonValue::Real(n)) => *n,
                _ => 0,
            };
            CellData::Real(n)
        },
        DataType::JSON => match v {
            Some(JsonValue::Obj(s)) => CellData::JSON(s.clone()),
            Some(JsonValue::Arr(s)) => CellData::JSON(s.clone()),
            _ => {
                let mut braces: Vec<char> = Vec::new();
                braces.push('{');
                braces.push('}');
                let e = crate::text::string_of(&braces);
                proof {
                    assert(braces@ =~= seq!['{', '}']);
                }
                CellData::JSON(e)
            },
        },
    }
}

fn dec_str_x(n: usize) -> (r: Vec<char>)
    ensures
        r@ == dec_str(n as nat),
    decreases n,
{
    if n < 10 {
        let c = ((48 + (n as u32)) as u8) as char;
        let mut v: Vec<char> = Vec::new();
        v.push(c);
        proof {
            assert(c == digit_char(n as nat));
            assert(v@ =~= seq![digit_char(n as nat)]);
        }
        v
    } else {
        let mut v = dec_str_x(n / 10);
        let c = ((48 + ((n % 10) as u32)) as u8) as char;
        proof {
            assert(c == digit_char((n % 10) as nat));
        }
        v.push(c);
        v
    }
}

/// The columns a list of schema indices picks out.
pub open spec fn sel_map(cs: Seq<Col>, idxs: Seq<usize>) -> Seq<Col> {
    idxs.map(|_k: int, ix: usize| cs[ix as int])
}

/// The predicates a list of schema indices picks out.
pub open spec fn cond_map(cs: Seq<Col>, idxs: Seq<usize>) -> Seq<(Seq<char>, ConditionView)> {
    idxs.map(|_k: int, ix: usize| (cs[ix as int].name@, col_cond(cs[ix as int])))
}

/// The view of one result row.
pub open spec fn row_view(row: Seq<(String, CellData)>) -> Seq<(Seq<char>, CellDataView)> {
    row.map(|_i: int, p: (String, CellData)| (p.0@, p.1@))
}

/// The view of the result rows.
pub open spec fn rows_views(rows: Seq<Vec<(String, CellData)>>) -> Seq<
    Seq<(Seq<char>, CellDataView)>,
> {
    rows.map(|_i: int, rv: Vec<(String, CellData)>| row_view(rv@))
}

/// The view of the bound parameters.
pub open spec fn binds_views(bs: Seq<BindValue>) -> Seq<BindValueView> {
    bs.map(|_i: int, b: BindValue| b@)
}

/// What a query returns: the rendered statement, its bound parameters
/// in placeholder order, and the typed rows.
pub struct QueryOutput {
    pub statement: String,
    pub bindings: Vec<BindValue>,
    pub rows: Vec<Vec<(String, CellData)>>,
}

#[verifier::loop_isolation(false)]
fn select_and_validate(cols: &Vec<Col>) -> (r: Result<Vec<usize>, crate::EngineError>)
    ensures
        match r {
            Ok(idxs) => {
                &&& forall|k: int|
                    0 <= k < idxs@.len() ==> (#[trigger] idxs@[k]) < cols@.len()
                &&& sel_map(cols@, idxs@) == selected_of(cols@)
                &&& forall|k: int|
                    0 <= k < selected_of(cols@).len() ==> ident_ok(
                        (#[trigger] selected_of(cols@)[k]).name@,
                    )
            },
            Err(e) => e == crate::EngineError::ValidationError && exists|k: int|
                0 <= k < selected_of(cols@).len() && !ident_ok(
                    (#[trigger] selected_of(cols@)[k]).name@,
                ),
        },
{
    let ghost cs = cols@;
    let mut sel_idx: Vec<usize> = Vec::new();
    let mut i: usize = 0;
    proof {
        assert(sel_map(cs, sel_idx@) =~= selected_of(cs.take(0)));
    }
    while i < cols.len()
        invariant
            i <= cs.len(),
            forall|k: int| 0 <= k < sel_idx@.len() ==> (#[trigger] sel_idx@[k]) < i,
            sel_map(cs, sel_idx@) == selected_of(cs.take(i as int)),
            forall|j: int| 0 <= j < i ==> (is_selected(#[trigger] cs[j]) ==> ident_ok(cs[j].name@)),
        decreases cs.len() - i,
    {
        proof {
            assert(cs.take(i + 1).drop_last() =~= cs.take(i as int));
            assert(cs.take(i + 1).last() == cs[i as int]);
        }
        if is_selected_x(&cols[i]) {
            if !check_ident(cols[i].name.as_str()) {
                proof {
                    lemma_selected_contains(cs, i as int);
                    let k0 = choose|k: int|
                        0 <= k < selected_of(cs).len() && #[trigger] selected_of(cs)[k] == cs[
                            i as int
                        ];
                    assert(!ident_ok(selected_of(cs)[k0].name@));
                }
                return Err(crate::EngineError::ValidationError);
            }
            sel_idx.push(i);
            proof {
                assert(sel_map(cs, sel_idx@) =~= selected_of(cs.take(i + 1)));
            }
        }
        i = i + 1;
    }
    proof {
        assert(cs.take(cs.len() as int) =~= cs);
        assert forall|k: int| 0 <= k < selected_of(cs).len() implies ident_ok(
            (#[trigger] selected_of(cs)[k]).name@,
        ) by {
            lemma_selected_from(cs, k);
        }
    }
    Ok(sel_idx)
}

#[verifier::loop_isolation(false)]
fn active_conds(cols: &Vec<Col>) -> (r: Result<Vec<usize>, crate::EngineError>)
    ensures
        match r {
            Ok(idxs) => {
                &&& forall|k: int|
                    0 <= k < idxs@.len() ==> (#[trigger] idxs@[k]) < cols@.len()
                &&& forall|k: int|
                    0 <= k < idxs@.len() ==> is_cond_active(cols@[(#[trigger] idxs@[k]) as int])
                &&& cond_map(cols@, idxs@) == conds_of(cols@)
                &&& forall|k: int|
                    0 <= k < conds_of(cols@).len() ==> cond_renderable(
                        (#[trigger] conds_of(cols@)[k]).1,
                    )
            },
            Err(e) => e == crate::EngineError::QueryError && exists|k: int|
                0 <= k < conds_of(cols@).len() && !cond_renderable(
                    (#[trigger] conds_of(cols@)[k]).1,
                ),
        },
{
    let ghost cs = cols@;
    let mut cond_idx: Vec<usize> = Vec::new();
    let mut i: usize = 0;
    proof {
        assert(cond_map(cs, cond_idx@) =~= conds_of(cs.take(0)));
    }
    while i < cols.len()
        invariant
            i <= cs.len(),
            forall|k: int| 0 <= k < cond_idx@.len() ==> (#[trigger] cond_idx@[k]) < i,
            forall|k: int|
                0 <= k < cond_idx@.len() ==> is_cond_active(cs[(#[trigger] cond_idx@[k]) as int]),
            cond_map(cs, cond_idx@) == conds_of(cs.take(i as int)),
            forall|j: int|
                0 <= j < i ==> (is_cond_active(#[trigger] cs[j]) ==> cond_renderable(
                    col_cond(cs[j]),
                )),
        decreases cs.len() - i,
    {
        proof {
            assert(cs.take(i + 1).drop_last() =~= cs.take(i as int));
            assert(cs.take(i + 1).last() == cs[i as int]);
        }
        if is_cond_active_x(&cols[i]) {
            let compiles = match &cols[i].filter {
                Some(f) => match &f.condition {
                    Some(Condition::TextMatch { term, case, regex, .. }) => !*regex
                        || regex_compiles(term.as_str(), *case),
                    _ => true,
                },
                None => true,
            };
            if !compiles {
                proof {
                    assert(!cond_renderable(col_cond(cs[i as int])));
                    lemma_conds_contains(cs, i as int);
                    let k0 = choose|k: int|
                        0 <= k < conds_of(cs).len() && #[trigger] conds_of(cs)[k] == (
                            cs[i as int].name@,
                            col_cond(cs[i as int]),
                        );
                    assert(!cond_renderable(conds_of(cs)[k0].1));
                }
                return Err(crate::EngineError::QueryError);
            }
            proof {
                assert(cond_renderable(col_cond(cs[i as int])));
            }
            cond_idx.push(i);
            proof {
                assert(cond_map(cs, cond_idx@) =~= conds_of(cs.take(i + 1)));
            }
        }
        i = i + 1;
    }
    proof {
        assert(cs.take(cs.len() as int) =~= cs);
        assert forall|k: int| 0 <= k < conds_of(cs).len() implies cond_renderable(
            (#[trigger] conds_of(cs)[k]).1,
        ) by {
            lemma_conds_from(cs, k);
        }
    }
    Ok(cond_idx)
}

#[verifier::loop_isolation(false)]
#[verifier::rlimit(100)]
fn render_pred(stmt: &mut String, binds: &mut Vec<BindValue>, col: &Col) -> (r: Result<
    (),
    crate::EngineError,
>)
    requires
        is_cond_active(*col),
    ensures
        match r {
            Ok(u) => {
                &&& final(stmt)@ == old(stmt)@ + pred_text(col.name@, col_cond(*col))
                &&& binds_views(final(binds)@) == binds_views(old(binds)@) + binds_one(
                    col_cond(*col),
                )
            },
            Err(_) => false,
        },
{
    let f = match &col.filter {
        Some(f) => f,
        None => {
            return Err(crate::EngineError::QueryError);
        },
    };
    let cnd = match &f.condition {
        Some(c) => c,
        None => {
            return Err(crate::EngineError::QueryError);
        },
    };
    let ghost binds_pre = binds_views(binds@);
    let ghost stmt_pre = stmt@;
    match cnd {
        Condition::NumRange(lo, hi) => {
            stmt.append("json_extract(entry, '$.");
            stmt.append(col.name.as_str());
            stmt.append("')");
            stmt.append(" BETWEEN ? AND ?");
            let ghost b_pre = binds@;
            binds.push(BindValue::Num(*lo));
            binds.push(BindValue::Num(*hi));
            proof {
                assert(binds@ =~= b_pre.push(BindValue::Num(lo@)).push(BindValue::Num(hi@)));
                assert(binds_views(binds@) =~= binds_pre + binds_one(col_cond(*col)));
                assert(stmt@ =~= stmt_pre + pred_text(col.name@, col_cond(*col)));
            }
        },
        Condition::Select { items, reverse } => {
            if *reverse {
                stmt.append("NOT ");
            }
            stmt.append("COALESCE(");
            stmt.append("json_extract(entry, '$.");
            stmt.append(col.name.as_str());
            stmt.append("')");
            stmt.append(" IN (");
            let ghost ph_base = stmt@;
            let mut q: usize = 0;
            while q < items.len()
                invariant
                    q <= items@.len(),
                    stmt@ == ph_base + placeholders(q as nat),
                    binds_views(binds@) == binds_pre + texts_binds(
                        strs_view(items@).take(q as int),
                    ),
                decreases items@.len() - q,
            {
                if q == 0 {
                    stmt.append("?");
                } else {
                    stmt.append(", ?");
                }
                let ghost b_pre = binds_views(binds@);
                binds.push(BindValue::Text(items[q].clone()));
                proof {
                    assert(stmt@ =~= ph_base + placeholders((q + 1) as nat));
                    assert(binds_views(binds@) =~= b_pre.push(
                        BindValueView::Text(items@[q as int]@),
                    ));
                    assert(strs_view(items@).take(q + 1).drop_last() =~= strs_view(items@).take(
                        q as int,
                    ));
                    assert(strs_view(items@).take(q + 1).last() == items@[q as int]@);
                    assert(texts_binds(strs_view(items@).take(q + 1)) == texts_binds(
                        strs_view(items@).take(q as int),
                    ).push(BindValueView::Text(items@[q as int]@)));
                    assert(binds_views(binds@) =~= binds_pre + texts_binds(
                        strs_view(items@).take(q + 1),
                    ));
                }
                q = q + 1;
            }
            stmt.append("), 0)");
            proof {
                assert(strs_view(items@).take(strs_view(items@).len() as int) =~= strs_view(
                    items@,
                ));
                assert(stmt@ =~= stmt_pre + pred_text(col.name@, col_cond(*col)));
            }
        },
        Condition::TextMatch { term, reverse, case, regex } => {
            if *reverse {
                stmt.append("NOT ");
            }
            if *regex {
                stmt.append("COALESCE(");
                stmt.append("json_extract(entry, '$.");
                stmt.append(col.name.as_str());
                stmt.append("')");
                stmt.append(" REGEXP ?, 0)");
            } else if *case {
                stmt.append("COALESCE(instr(");
                stmt.append("json_extract(entry, '$.");
                stmt.append(col.name.as_str());
                stmt.append("')");
                stmt.append(", ?) > 0, 0)");
            } else {
                stmt.append("COALESCE(instr(lower(");
                stmt.append("json_extract(entry, '$.");
                stmt.append(col.name.as_str());
                stmt.append("')");
                stmt.append("), lower(?)) > 0, 0)");
            }
            let ghost b_pre = binds_views(binds@);
            binds.push(BindValue::Text(term.clone()));
            proof {
                assert(binds_views(binds@) =~= b_pre.push(BindValueView::Text(term@)));
                assert(binds_views(binds@) =~= binds_pre + binds_one(col_cond(*col)));
                assert(stmt@ =~= stmt_pre + pred_text(col.name@, col_cond(*col)));
            }
        },
    }
    Ok(())
}

#[verifier::loop_isolation(false)]
#[verifier::rlimit(100)]
fn render_statement(
    cols: &Vec<Col>,
    sel_idx: &Vec<usize>,
    cond_idx: &Vec<usize>,
    limit: usize,
) -> (r: Result<(String, Vec<BindValue>), crate::EngineError>)
    requires
        forall|k: int| 0 <= k < sel_idx@.len() ==> (#[trigger] sel_idx@[k]) < cols@.len(),
        sel_map(cols@, sel_idx@) == selected_of(cols@),
        forall|k: int| 0 <= k < cond_idx@.len() ==> (#[trigger] cond_idx@[k]) < cols@.len(),
        forall|k: int|
            0 <= k < cond_idx@.len() ==> is_cond_active(cols@[(#[trigger] cond_idx@[k]) as int]),
        cond_map(cols@, cond_idx@) == conds_of(cols@),
    ensures
        match r {
            Ok(p) => {
                &&& p.0@ == statement_spec(selected_of(cols@), conds_of(cols@), limit as nat)
                &&& binds_views(p.1@) == binds_of(conds_of(cols@))
            },
            Err(_) => false,
        },
{
    let ghost cs = cols@;
    let ghost sel = selected_of(cs);
    let ghost conds = conds_of(cs);
    let mut stmt = String::new();
    stmt.append("SELECT ");
    let mut k: usize = 0;
    while k < sel_idx.len()
        invariant
            k <= sel_idx@.len(),
            stmt@ == "SELECT "@ + proj_text(sel.take(k as int)),
        decreases sel_idx@.len() - k,
    {
        let ix = sel_idx[k];
        proof {
            assert(sel[k as int] == cs[ix as int]);
            assert(sel.take(k + 1).drop_last() =~= sel.take(k as int));
            assert(sel.take(k + 1).last() == sel[k as int]);
        }
        if k > 0 {
            stmt.append(", ");
        }
        stmt.append("json_extract(entry, '$.");
        stmt.append(cols[ix].name.as_str());
        stmt.append("')");
        stmt.append(" AS ");
        stmt.append(cols[ix].name.as_str());
        proof {
            assert(stmt@ =~= "SELECT "@ + proj_text(sel.take(k + 1)));
        }
        k = k + 1;
    }
    proof {
        assert(sel.take(sel.len() as int) =~= sel);
    }
    stmt.append(" FROM log");
    let ghost head = stmt@;
    let mut binds: Vec<BindValue> = Vec::new();
    if cond_idx.len() > 0 {
        stmt.append(" WHERE ");
        let mut k2: usize = 0;
        proof {
            assert(binds_views(binds@) =~= binds_of(conds.take(0)));
        }
        while k2 < cond_idx.len()
            invariant
                k2 <= cond_idx@.len(),
                cond_idx@.len() > 0,
                stmt@ == head + " WHERE "@ + where_text(conds.take(k2 as int)),
                binds_views(binds@) == binds_of(conds.take(k2 as int)),
            decreases cond_idx@.len() - k2,
        {
            let ix = cond_idx[k2];
            proof {
                assert(conds[k2 as int] == (cs[ix as int].name@, col_cond(cs[ix as int])));
                assert(conds.take(k2 + 1).drop_last() =~= conds.take(k2 as int));
                assert(conds.take(k2 + 1).last() == conds[k2 as int]);
                assert(is_cond_active(cs[ix as int]));
            }
            if k2 > 0 {
                stmt.append(" AND ");
            }
            match render_pred(&mut stmt, &mut binds, &cols[ix]) {
                Ok(()) => {},
                Err(e) => {
                    return Err(e);
                },
            }
            proof {
                assert(stmt@ =~= head + " WHERE "@ + where_text(conds.take(k2 + 1)));
            }
            k2 = k2 + 1;
        }
        proof {
            assert(conds.take(conds.len() as int) =~= conds);
        }
    } else {
        proof {
            assert(conds.len() == 0);
            assert(binds_views(binds@) =~= binds_of(conds));
        }
    }
    stmt.append(" LIMIT ");
    let digits = dec_str_x(limit);
    let ds = crate::text::string_of(&digits);
    stmt.append(ds.as_str());
    proof {
        assert(stmt@ =~= statement_spec(sel, conds, limit as nat));
    }
    Ok((stmt, binds))
}

#[verifier::loop_isolation(false)]
#[verifier::rlimit(100)]
fn eval_rows(
    records: &Vec<String>,
    cols: &Vec<Col>,
    sel_idx: &Vec<usize>,
    cond_idx: &Vec<usize>,
    limit: usize,
) -> (r: Result<Vec<Vec<(String, CellData)>>, crate::EngineError>)
    requires
        forall|k: int| 0 <= k < sel_idx@.len() ==> (#[trigger] sel_idx@[k]) < cols@.len(),
        sel_map(cols@, sel_idx@) == selected_of(cols@),
        forall|k: int| 0 <= k < cond_idx@.len() ==> (#[trigger] cond_idx@[k]) < cols@.len(),
        forall|k: int|
            0 <= k < cond_idx@.len() ==> is_cond_active(cols@[(#[trigger] cond_idx@[k]) as int]),
        cond_map(cols@, cond_idx@) == conds_of(cols@),
        forall|k: int|
            0 <= k < conds_of(cols@).len() ==> cond_renderable((#[trigger] conds_of(cols@)[k]).1),
    ensures
        match r {
            Ok(rows) => rows_views(rows@) == rows_spec(
                strs_view(records@),
                selected_of(cols@),
                conds_of(cols@),
                limit as nat,
            ),
            Err(_) => false,
        },
{
    let ghost cs = cols@;
    let ghost sel = selected_of(cs);
    let ghost conds = conds_of(cs);
    let ghost recs = strs_view(records@);
    let mut rows: Vec<Vec<(String, CellData)>> = Vec::new();
    let mut ri: usize = 0;
    proof {
        assert(rows_views(rows@) =~= rows_spec(recs.take(0), sel, conds, limit as nat));
    }
    while ri < records.len()
        invariant
            ri <= records@.len(),
            rows_views(rows@) == rows_spec(recs.take(ri as int), sel, conds, limit as nat),
            rows@.len() == rows_spec(recs.take(ri as int), sel, conds, limit as nat).len(),
        decreases records@.len() - ri,
    {
        proof {
            assert(recs.take(ri + 1).drop_last() =~= recs.take(ri as int));
            assert(recs.take(ri + 1).last() == recs[ri as int]);
            assert(recs[ri as int] == records@[ri as int]@);
        }
        match crate::json::parse_record(records[ri].as_str()) {
            None => {},
            Some(m) => {
                let ghost mv = crate::json::members_view(m@);
                let mut pass = true;
                let mut ck: usize = 0;
                while ck < cond_idx.len()
                    invariant
                        ck <= cond_idx@.len(),
                        pass == (forall|j: int|
                            0 <= j < ck ==> cond_holds(
                                lookup(mv, (#[trigger] conds[j]).0),
                                conds[j].1,
                            )),
                    decreases cond_idx@.len() - ck,
                {
                    let ix = cond_idx[ck];
                    proof {
                        assert(conds[ck as int] == (cs[ix as int].name@, col_cond(cs[ix as int])));
                        assert(is_cond_active(cs[ix as int]));
                    }
                    let f = match &cols[ix].filter {
                        Some(f) => f,
                        None => {
                            return Err(crate::EngineError::QueryError);
                        },
                    };
                    let cnd = match &f.condition {
                        Some(c) => c,
                        None => {
                            return Err(crate::EngineError::QueryError);
                        },
                    };
                    let v = lookup_x(&m, &cols[ix].name);
                    let h = cond_holds_x(v, cnd);
                    pass = pass && h;
                    ck = ck + 1;
                }
                proof {
                    assert(pass == row_passes(mv, conds));
                }
                if pass && rows.len() < limit {
                    let mut row: Vec<(String, CellData)> = Vec::new();
                    let mut sk: usize = 0;
                    proof {
                        assert(row_view(row@) =~= row_of(mv, sel.take(0)));
                    }
                    while sk < sel_idx.len()
                        invariant
                            sk <= sel_idx@.len(),
                            row_view(row@) == row_of(mv, sel.take(sk as int)),
                            row@.len() == sk,
                        decreases sel_idx@.len() - sk,
                    {
                        let ix = sel_idx[sk];
                        proof {
                            assert(sel[sk as int] == cs[ix as int]);
                        }
                        let v = lookup_x(&m, &cols[ix].name);
                        let dt = match &cols[ix].meta {
                            Some(mt) => mt.data_type,
                            None => DataType::Text,
                        };
                        let cell = cell_x(v, dt);
                        let ghost row_pre = row@;
                        row.push((cols[ix].name.clone(), cell));
                        proof {
                            assert(sel.len() == sel_idx@.len());
                            assert forall|j: int| 0 <= j < sk + 1 implies row_view(row@)[j]
                                == row_of(mv, sel.take(sk + 1))[j] by {
                                assert(sel.take(sk + 1)[j] == sel[j]);
                                if j < sk {
                                    assert(row@[j] == row_pre[j]);
                                    assert(row_view(row_pre)[j] == row_of(
                                        mv,
                                        sel.take(sk as int),
                                    )[j]);
                                    assert(sel.take(sk as int)[j] == sel[j]);
                                }
                            }
                            assert(row_view(row@) =~= row_of(mv, sel.take(sk + 1)));
                        }
                        sk = sk + 1;
                    }
                    proof {
                        assert(sel.take(sel.len() as int) =~= sel);
                    }
                    rows.push(row);
                    proof {
                        assert(rows_views(rows@) =~= rows_spec(
                            recs.take(ri + 1),
                            sel,
                            conds,
                            limit as nat,
                        ));
                    }
                }
            },
        }
        ri = ri + 1;
    }
    proof {
        assert(recs.take(recs.len() as int) =~= recs);
    }
    Ok(rows)
}

impl crate::store::Store {
    /// Build and run the current query: project the selected columns
    /// out of every stored record with an object reading that passes
    /// every active predicate, in insertion order, up to `limit` rows.
    /// A selected column name outside the identifier grammar is
    /// refused before any statement text is built; a regular-expression
    /// pattern that does not compile is refused before any evaluation.
    pub fn query(&self, limit: usize) -> (r: Result<QueryOutput, crate::EngineError>)
        requires
            self.wf(),
        ensures
            match r {
                Ok(out) => {
                    let sel = selected_of(self.cols_seq());
                    let conds = conds_of(self.cols_seq());
                    &&& forall|k: int|
                        0 <= k < sel.len() ==> ident_ok((#[trigger] sel[k]).name@)
                    &&& forall|k: int|
                        0 <= k < conds.len() ==> cond_renderable((#[trigger] conds[k]).1)
                    &&& out.statement@ == statement_spec(sel, conds, limit as nat)
                    &&& binds_views(out.bindings@) == binds_of(conds)
                    &&& rows_views(out.rows@) == rows_spec(self.raw_view(), sel, conds, limit as nat)
                },
                Err(e) => {
                    let sel = selected_of(self.cols_seq());
                    let conds = conds_of(self.cols_seq());
                    ||| (e == crate::EngineError::ValidationError && exists|k: int|
                        0 <= k < sel.len() && !ident_ok((#[trigger] sel[k]).name@))
                    ||| (e == crate::EngineError::QueryError && (forall|k: int|
                        0 <= k < sel.len() ==> ident_ok((#[trigger] sel[k]).name@)) && exists|
                        k: int,
                    |
                        0 <= k < conds.len() && !cond_renderable((#[trigger] conds[k]).1))
                },
            },
    {
        let cols = self.cols();
        let sel_idx = match select_and_validate(cols) {
            Ok(v) => v,
            Err(e) => {
                return Err(e);
            },
        };
        let cond_idx = match active_conds(cols) {
            Ok(v) => v,
            Err(e) => {
                return Err(e);
            },
        };
        let (stmt, binds) = match render_statement(cols, &sel_idx, &cond_idx, limit) {
            Ok(p) => p,
            Err(e) => {
                return Err(e);
            },
        };
        let rows = match eval_rows(self.records(), cols, &sel_idx, &cond_idx, limit) {
            Ok(v) => v,
            Err(e) => {
                return Err(e);
            },
        };
        Ok(QueryOutput { statement: stmt, bindings: binds, rows })
    }
}

} // verus!
