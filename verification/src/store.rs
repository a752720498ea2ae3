//! The state store: the current schema/view state, the merge rule
//! between freshly discovered metadata and previously recorded user
//! filter edits, and the snapshot payloads broadcast to observers.
//! It also owns the raw record store, the only persisted artifact.
use vstd::prelude::*;

use crate::text::strs_view;
use crate::types::DataType;

verus! {

/// A per-column filter condition, polymorphic over its three shapes.
/// Range bounds live on the unified numeric axis (native value for
/// numbers, epoch milliseconds for timestamp text).
#[derive(Clone, Debug, PartialEq)]
pub enum Condition {
    NumRange(i64, i64),
    Select { items: Vec<String>, reverse: bool },
    TextMatch { term: String, reverse: bool, case: bool, regex: bool },
}

/// Specification-level counterpart of `Condition`.
pub enum ConditionView {
    NumRange(i64, i64),
    Select { items: Seq<Seq<char>>, reverse: bool },
    TextMatch { term: Seq<char>, reverse: bool, case: bool, regex: bool },
}

impl View for Condition {
    type V = ConditionView;

    open spec fn view(&self) -> ConditionView {
        match self {
            Condition::NumRange(lo, hi) => ConditionView::NumRange(*lo, *hi),
            Condition::Select { items, reverse } => ConditionView::Select {
                items: strs_view(items@),
                reverse: *reverse,
            },
            Condition::TextMatch { term, reverse, case, regex } => ConditionView::TextMatch {
                term: term@,
                reverse: *reverse,
                case: *case,
                regex: *regex,
            },
        }
    }
}

/// What the analyzer reports for one column.  `vals` holds the distinct
/// text values in first-seen order.  `max`/`min` live on the unified
/// numeric axis and are 0 when no value contributed to it.
#[derive(Clone, Debug, PartialEq)]
pub struct ColMeta {
    pub data_type: DataType,
    pub vals: Vec<String>,
    pub is_datetime: bool,
    pub is_json: bool,
    pub max: i64,
    pub min: i64,
}

/// Specification-level counterpart of `ColMeta`.
pub struct ColMetaView {
    pub data_type: DataType,
    pub vals: Seq<Seq<char>>,
    pub is_datetime: bool,
    pub is_json: bool,
    pub max: i64,
    pub min: i64,
}

impl View for ColMeta {
    type V = ColMetaView;

    open spec fn view(&self) -> ColMetaView {
        ColMetaView {
            data_type: self.data_type,
            vals: strs_view(self.vals@),
            is_datetime: self.is_datetime,
            is_json: self.is_json,
            max: self.max,
            min: self.min,
        }
    }
}

/// What the user chose for one column: whether it is projected, and an
/// optional filter condition.
#[derive(Clone, Debug, PartialEq)]
pub struct ColFilter {
    pub should_select: bool,
    pub condition: Option<Condition>,
}

/// Specification-level counterpart of `ColFilter`.
pub struct ColFilterView {
    pub should_select: bool,
    pub condition: Option<ConditionView>,
}

impl View for ColFilter {
    type V = ColFilterView;

    open spec fn view(&self) -> ColFilterView {
        ColFilterView {
            should_select: self.should_select,
            condition: match &self.condition {
                None => None,
                Some(c) => Some(c@),
            },
        }
    }
}

/// One schema column: a name and two independent optional facets.  The
/// `meta` facet is produced only by analysis, the `filter` facet only by
/// user configuration; merging either never clears the other.
#[derive(Clone, Debug, PartialEq)]
pub struct Col {
    pub name: String,
    pub meta: Option<ColMeta>,
    pub filter: Option<ColFilter>,
}

/// Specification-level counterpart of `Col`.
pub struct ColView {
    pub name: Seq<char>,
    pub meta: Option<ColMetaView>,
    pub filter: Option<ColFilterView>,
}

impl View for Col {
    type V = ColView;

    open spec fn view(&self) -> ColView {
        ColView {
            name: self.name@,
            meta: match &self.meta {
                None => None,
                Some(m) => Some(m@),
            },
            filter: match &self.filter {
                None => None,
                Some(f) => Some(f@),
            },
        }
    }
}

/// The view of a column list.
pub open spec fn cols_views(s: Seq<Col>) -> Seq<ColView> {
    s.map(|_i: int, c: Col| c@)
}

/// The two kinds of state a snapshot or broadcast can carry.
#[derive(Clone, Copy, Debug, PartialEq, Eq, Structural)]
pub enum PubTypes {
    Progress,
    ColumnMeta,
}

/// The wire representation of a state snapshot.
#[derive(Clone, Debug, PartialEq)]
pub enum PubData {
    Progress { parsing_percent: u32 },
    ColumnMeta { cols: Vec<Col> },
}

/// One broadcast envelope: the kind tag and the full current state of
/// that kind.
#[derive(Clone, Debug, PartialEq)]
pub struct PubPayload {
    pub pub_type: PubTypes,
    pub data: PubData,
}

/// Append-only holder of raw record text; nothing is parsed at write
/// time, malformed lines are stored as-is.
pub struct RawStore {
    entries: Vec<String>,
}

impl View for RawStore {
    type V = Seq<Seq<char>>;

    closed spec fn view(&self) -> Seq<Seq<char>> {
        strs_view(self.entries@)
    }
}

impl RawStore {
    pub fn new() -> (r: RawStore)
        ensures
            r@ == Seq::<Seq<char>>::empty(),
    {
        let r = RawStore { entries: Vec::new() };
        proof {
            assert(r@ =~= Seq::<Seq<char>>::empty());
        }
        r
    }

    /// Store one opaque text record at the end.
    pub fn append(&mut self, entry: String)
        ensures
            final(self)@ == old(self)@.push(entry@),
    {
        let ghost pre = self@;
        self.entries.push(entry);
        proof {
            assert(self@ =~= pre.push(self.entries@.last()@));
        }
    }

    /// All stored records, in insertion order.
    pub fn scan(&self) -> (r: &Vec<String>)
        ensures
            strs_view(r@) == self@,
            r@.len() == self@.len(),
    {
        &self.entries
    }

    /// Discard every record, ahead of a fresh ingestion.
    pub fn reset(&mut self)
        ensures
            final(self)@ == Seq::<Seq<char>>::empty(),
    {
        self.entries = Vec::new();
        proof {
            assert(self@ =~= Seq::<Seq<char>>::empty());
        }
    }

    pub fn len(&self) -> (r: usize)
        ensures
            r == self@.len(),
    {
        self.entries.len()
    }
}

/// First index in `cur` whose column carries `name`, or -1.
pub open spec fn idx_of(cur: Seq<Col>, name: Seq<char>) -> int
    decreases cur.len(),
{
    if cur.len() == 0 {
        -1
    } else if cur[0].name@ == name {
        0
    } else {
        let r = idx_of(cur.drop_first(), name);
        if r < 0 {
            -1
        } else {
            r + 1
        }
    }
}

/// One column after an incoming facet update: a present incoming facet
/// overwrites, an absent one leaves the held facet untouched.
pub open spec fn merged_col(cur: Col, c: Col) -> Col {
    Col {
        name: cur.name,
        meta: if c.meta is Some {
            c.meta
        } else {
            cur.meta
        },
        filter: if c.filter is Some {
            c.filter
        } else {
            cur.filter
        },
    }
}

/// Merge one incoming column: update in place when the name is known,
/// append a new column otherwise.
pub open spec fn merge_one(cur: Seq<Col>, c: Col) -> Seq<Col> {
    let i = idx_of(cur, c.name@);
    if i < 0 {
        cur.push(c)
    } else {
        cur.update(i, merged_col(cur[i], c))
    }
}

/// Merge an incoming column list, left to right.
pub open spec fn merge_cols(cur: Seq<Col>, inc: Seq<Col>) -> Seq<Col>
    decreases inc.len(),
{
    if inc.len() == 0 {
        cur
    } else {
        merge_cols(merge_one(cur, inc.first()), inc.drop_first())
    }
}

proof fn lemma_idx_of_bounds(cur: Seq<Col>, name: Seq<char>)
    ensures
        -1 <= idx_of(cur, name) < cur.len(),
        idx_of(cur, name) >= 0 ==> cur[idx_of(cur, name)].name@ == name,
    decreases cur.len(),
{
    if cur.len() > 0 && cur[0].name@ != name {
        lemma_idx_of_bounds(cur.drop_first(), name);
    }
}

proof fn lemma_idx_of_none(cur: Seq<Col>, name: Seq<char>)
    requires
        idx_of(cur, name) == -1,
    ensures
        forall|i: int| 0 <= i < cur.len() ==> (#[trigger] cur[i]).name@ != name,
    decreases cur.len(),
{
    if cur.len() > 0 {
        lemma_idx_of_bounds(cur.drop_first(), name);
        lemma_idx_of_none(cur.drop_first(), name);
        assert forall|i: int| 1 <= i < cur.len() implies (#[trigger] cur[i]).name@ != name by {
            assert(cur[i] == cur.drop_first()[i - 1]);
        }
    }
}

proof fn lemma_idx_of_first(cur: Seq<Col>, name: Seq<char>, i: int)
    requires
        0 <= i < cur.len(),
        cur[i].name@ == name,
        forall|j: int| 0 <= j < i ==> (#[trigger] cur[j]).name@ != name,
    ensures
        idx_of(cur, name) == i,
    decreases cur.len(),
{
    if i > 0 {
        assert(cur[0].name@ != name);
        assert(cur.drop_first()[i - 1] == cur[i]);
        assert(forall|j: int|
            0 <= j < i - 1 ==> #[trigger] cur.drop_first()[j] == cur[j + 1]);
        lemma_idx_of_first(cur.drop_first(), name, i - 1);
    }
}

/// The merge law: merging never drops or renames a held column, never
/// clears a facet that was set, and an incoming list that carries no
/// meta (or no filter) facet leaves every held meta (or filter) facet
/// exactly as it was.
pub proof fn lemma_merge_preserves(cur: Seq<Col>, inc: Seq<Col>)
    ensures
        merge_cols(cur, inc).len() >= cur.len(),
        forall|i: int|
            0 <= i < cur.len() ==> (#[trigger] merge_cols(cur, inc)[i]).name == cur[i].name,
        forall|i: int|
            0 <= i < cur.len() ==> ((#[trigger] cur[i]).meta is Some ==> merge_cols(
                cur,
                inc,
            )[i].meta is Some),
        forall|i: int|
            0 <= i < cur.len() ==> ((#[trigger] cur[i]).filter is Some ==> merge_cols(
                cur,
                inc,
            )[i].filter is Some),
        (forall|j: int| 0 <= j < inc.len() ==> (#[trigger] inc[j]).meta is None) ==> forall|i: int|
            0 <= i < cur.len() ==> (#[trigger] merge_cols(cur, inc)[i]).meta == cur[i].meta,
        (forall|j: int| 0 <= j < inc.len() ==> (#[trigger] inc[j]).filter is None) ==> forall|
            i: int,
        |
            0 <= i < cur.len() ==> (#[trigger] merge_cols(cur, inc)[i]).filter == cur[i].filter,
    decreases inc.len(),
{
    if inc.len() > 0 {
        let cur2 = merge_one(cur, inc.first());
        lemma_idx_of_bounds(cur, inc.first().name@);
        lemma_merge_preserves(cur2, inc.drop_first());
        assert(forall|j: int|
            0 <= j < inc.drop_first().len() ==> #[trigger] inc.drop_first()[j] == inc[j + 1]);
    }
}

proof fn lemma_idx_of_absent(cur: Seq<Col>, name: Seq<char>)
    requires
        forall|i: int| 0 <= i < cur.len() ==> (#[trigger] cur[i]).name@ != name,
    ensures
        idx_of(cur, name) == -1,
    decreases cur.len(),
{
    if cur.len() > 0 {
        assert(forall|i: int|
            0 <= i < cur.drop_first().len() ==> #[trigger] cur.drop_first()[i] == cur[i + 1]);
        lemma_idx_of_absent(cur.drop_first(), name);
    }
}

/// Merging keeps column names unique.
pub proof fn lemma_merge_unique(cur: Seq<Col>, inc: Seq<Col>)
    requires
        forall|i: int, j: int|
            0 <= i < j < cur.len() ==> (#[trigger] cur[i]).name@ != (#[trigger] cur[j]).name@,
    ensures
        forall|i: int, j: int|
            0 <= i < j < merge_cols(cur, inc).len() ==> (#[trigger] merge_cols(cur, inc)[i]).name@
                != (#[trigger] merge_cols(cur, inc)[j]).name@,
    decreases inc.len(),
{
    if inc.len() > 0 {
        let c = inc.first();
        let cur2 = merge_one(cur, c);
        lemma_idx_of_bounds(cur, c.name@);
        if idx_of(cur, c.name@) < 0 {
            lemma_idx_of_none(cur, c.name@);
            assert(forall|i: int, j: int|
                0 <= i < j < cur2.len() ==> (#[trigger] cur2[i]).name@ != (
                #[trigger] cur2[j]).name@);
        } else {
            assert(forall|i: int, j: int|
                0 <= i < j < cur2.len() ==> (#[trigger] cur2[i]).name@ != (
                #[trigger] cur2[j]).name@);
        }
        lemma_merge_unique(cur2, inc.drop_first());
    }
}

fn dup_strings(v: &Vec<String>) -> (r: Vec<String>)
    ensures
        strs_view(r@) == strs_view(v@),
        r@.len() == v@.len(),
{
    let mut out: Vec<String> = Vec::new();
    let mut i: usize = 0;
    while i < v.len()
        invariant
            i <= v@.len(),
            out@.len() == i,
            strs_view(out@) == strs_view(v@.take(i as int)),
        decreases v@.len() - i,
    {
        let ghost pre_out = out@;
        out.push(v[i].clone());
        proof {
            assert(strs_view(out@).len() == i + 1);
            assert(strs_view(v@.take(i + 1)).len() == i + 1);
            assert forall|k: int| 0 <= k < i + 1 implies strs_view(out@)[k] == strs_view(
                v@.take(i + 1),
            )[k] by {
                assert(strs_view(out@)[k] == out@[k]@);
                assert(strs_view(v@.take(i + 1))[k] == v@.take(i + 1)[k]@);
                if k < i {
                    assert(out@[k] == pre_out[k]);
                    assert(strs_view(pre_out)[k] == pre_out[k]@);
                    assert(strs_view(v@.take(i as int))[k] == v@.take(i as int)[k]@);
                }
            }
            assert(strs_view(out@) =~= strs_view(v@.take(i + 1)));
        }
        i = i + 1;
    }
    assert(v@.take(v@.len() as int) =~= v@);
    out
}

fn dup_condition(c: &Condition) -> (r: Condition)
    ensures
        r@ == c@,
{
    match c {
        Condition::NumRange(lo, hi) => Condition::NumRange(*lo, *hi),
        Condition::Select { items, reverse } => Condition::Select {
            items: dup_strings(items),
            reverse: *reverse,
        },
        Condition::TextMatch { term, reverse, case, regex } => Condition::TextMatch {
            term: term.clone(),
            reverse: *reverse,
            case: *case,
            regex: *regex,
        },
    }
}

fn dup_meta(m: &ColMeta) -> (r: ColMeta)
    ensures
        r@ == m@,
{
    ColMeta {
        data_type: m.data_type,
        vals: dup_strings(&m.vals),
        is_datetime: m.is_datetime,
        is_json: m.is_json,
        max: m.max,
        min: m.min,
    }
}

fn dup_filter(f: &ColFilter) -> (r: ColFilter)
    ensures
        r@ == f@,
{
    ColFilter {
        should_select: f.should_select,
        condition: match &f.condition {
            None => None,
            Some(c) => Some(dup_condition(c)),
        },
    }
}

fn dup_col(c: &Col) -> (r: Col)
    ensures
        r@ == c@,
{
    Col {
        name: c.name.clone(),
        meta: match &c.meta {
            None => None,
            Some(m) => Some(dup_meta(m)),
        },
        filter: match &c.filter {
            None => None,
            Some(f) => Some(dup_filter(f)),
        },
    }
}

fn dup_cols(v: &Vec<Col>) -> (r: Vec<Col>)
    ensures
        cols_views(r@) == cols_views(v@),
        r@.len() == v@.len(),
{
    let mut out: Vec<Col> = Vec::new();
    let mut i: usize = 0;
    while i < v.len()
        invariant
            i <= v@.len(),
            out@.len() == i,
            cols_views(out@) == cols_views(v@.take(i as int)),
        decreases v@.len() - i,
    {
        let ghost pre = cols_views(out@);
        out.push(dup_col(&v[i]));
        proof {
            assert forall|k: int| 0 <= k < i + 1 implies cols_views(out@)[k] == cols_views(
                v@.take(i + 1),
            )[k] by {
                if k < i {
                    assert(cols_views(out@)[k] == pre[k]);
                }
            }
            assert(cols_views(out@) =~= cols_views(v@.take(i + 1)));
        }
        i = i + 1;
    }
    assert(v@.take(v@.len() as int) =~= v@);
    out
}

/// A path separator, on either convention.
pub open spec fn is_sep(c: char) -> bool {
    c == '/' || c == '\\'
}

/// Index of the last path separator, or -1 when there is none.
pub open spec fn last_sep(s: Seq<char>) -> int
    decreases s.len(),
{
    if s.len() == 0 {
        -1
    } else if is_sep(s.last()) {
        s.len() - 1
    } else {
        last_sep(s.drop_last())
    }
}

/// Index of the last dot, or -1 when there is none.
pub open spec fn last_dot(s: Seq<char>) -> int
    decreases s.len(),
{
    if s.len() == 0 {
        -1
    } else if s.last() == '.' {
        s.len() - 1
    } else {
        last_dot(s.drop_last())
    }
}

proof fn lemma_last_sep_bounds(s: Seq<char>)
    ensures
        -1 <= last_sep(s) < s.len(),
        -1 <= last_dot(s) < s.len(),
    decreases s.len(),
{
    if s.len() > 0 {
        lemma_last_sep_bounds(s.drop_last());
    }
}

/// The file name of a path: what follows its last separator.
pub open spec fn file_name_of(s: Seq<char>) -> Seq<char> {
    s.subrange(last_sep(s) + 1, s.len() as int)
}

/// The base name: the file name short of its extension.  A dot in
/// first position marks a hidden file, not an extension.
pub open spec fn stem_of(name: Seq<char>) -> Seq<char> {
    let d = last_dot(name);
    if d <= 0 {
        name
    } else {
        name.subrange(0, d)
    }
}

/// The deterministic storage location for a source path: one
/// self-contained store per base name under the application's
/// directory, the same on every run.  None when the path carries no
/// file name.
pub open spec fn storage_key_spec(app: Seq<char>, path: Seq<char>) -> Option<Seq<char>> {
    let name = file_name_of(path);
    if name.len() == 0 {
        None
    } else {
        Some(app + "/"@ + stem_of(name) + ".db"@)
    }
}

/// Derive the storage location for a source file from its base name.
#[verifier::loop_isolation(false)]
pub fn storage_key(app_name: &str, file_path: &str) -> (r: Option<String>)
    ensures
        match r {
            None => storage_key_spec(app_name@, file_path@) is None,
            Some(k) => storage_key_spec(app_name@, file_path@) == Some(k@),
        },
{
    let p = crate::text::chars_of(file_path);
    proof {
        lemma_last_sep_bounds(p@);
    }

    // Last separator, scanned from the end.
    let mut i: usize = p.len();
    let mut found = false;
    proof {
        assert(p@.take(p@.len() as int) =~= p@);
    }
    while i > 0 && !found
        invariant
            i <= p@.len(),
            !found ==> last_sep(p@) == last_sep(p@.take(i as int)),
            found ==> 1 <= i <= p@.len() && last_sep(p@) == i - 1,
        decreases i + (if found {
            0int
        } else {
            1int
        }),
    {
        proof {
            assert(p@.take(i as int).drop_last() =~= p@.take(i - 1));
            assert(p@.take(i as int).last() == p@[i - 1]);
        }
        if p[i - 1] == '/' || p[i - 1] == '\\' {
            found = true;
        } else {
            i = i - 1;
        }
    }
    let name_start = if found {
        i
    } else {
        proof {
            assert(p@.take(0) =~= Seq::<char>::empty());
        }
        0
    };
    proof {
        assert(last_sep(p@) == name_start - 1);
    }
    let ghost name = file_name_of(p@);
    proof {
        assert(name =~= p@.subrange(name_start as int, p@.len() as int));
        lemma_last_sep_bounds(name);
    }
    if name_start == p.len() {
        return None;
    }

    // Last dot of the file name, scanned from the end.
    let nlen = p.len() - name_start;
    let mut j: usize = nlen;
    let mut dot = false;
    proof {
        assert(name.take(name.len() as int) =~= name);
    }
    while j > 0 && !dot
        invariant
            j <= name.len(),
            name.len() == nlen,
            !dot ==> last_dot(name) == last_dot(name.take(j as int)),
            dot ==> 1 <= j <= name.len() && last_dot(name) == j - 1,
        decreases j + (if dot {
            0int
        } else {
            1int
        }),
    {
        proof {
            assert(name.take(j as int).drop_last() =~= name.take(j - 1));
            assert(name.take(j as int).last() == name[j - 1]);
            assert(name[j - 1] == p@[name_start + j - 1]);
        }
        if p[name_start + j - 1] == '.' {
            dot = true;
        } else {
            j = j - 1;
        }
    }
    proof {
        if !dot {
            assert(name.take(0) =~= Seq::<char>::empty());
        }
    }
    let stem_end = if dot && j - 1 > 0 {
        name_start + (j - 1)
    } else {
        p.len()
    };
    let ghost stem = stem_of(name);
    proof {
        assert(stem =~= p@.subrange(name_start as int, stem_end as int));
    }

    let mut part: Vec<char> = Vec::new();
    let mut k = name_start;
    while k < stem_end
        invariant
            name_start <= k <= stem_end <= p@.len(),
            part@ == p@.subrange(name_start as int, k as int),
        decreases stem_end - k,
    {
        part.push(p[k]);
        proof {
            assert(part@ =~= p@.subrange(name_start as int, k + 1));
        }
        k = k + 1;
    }
    let mut out = String::new();
    out.append(app_name);
    out.append("/");
    let stem_str = crate::text::string_of(&part);
    out.append(stem_str.as_str());
    out.append(".db");
    proof {
        assert(out@ =~= app_name@ + "/"@ + stem + ".db"@);
    }
    Some(out)
}

/// The lines ingestion keeps: the non-empty ones, in order.
pub open spec fn keep_nonempty(ls: Seq<Seq<char>>) -> Seq<Seq<char>>
    decreases ls.len(),
{
    if ls.len() == 0 {
        Seq::empty()
    } else {
        let p = keep_nonempty(ls.drop_last());
        if ls.last().len() > 0 {
            p.push(ls.last())
        } else {
            p
        }
    }
}

/// How many of the lines are non-empty.
pub open spec fn count_nonempty(ls: Seq<Seq<char>>) -> nat
    decreases ls.len(),
{
    if ls.len() == 0 {
        0
    } else {
        count_nonempty(ls.drop_last()) + (if ls.last().len() > 0 {
            1nat
        } else {
            0nat
        })
    }
}

/// The ingestion-count law: after ingesting an input with `L` non-empty
/// lines, the record store holds exactly `L` records, however many of
/// them are valid JSON objects.
pub proof fn lemma_ingestion_count(ls: Seq<Seq<char>>)
    ensures
        keep_nonempty(ls).len() == count_nonempty(ls),
    decreases ls.len(),
{
    if ls.len() > 0 {
        lemma_ingestion_count(ls.drop_last());
    }
}

/// The mutable schema/view state: the current columns and the ingestion
/// progress, as percent of the scan completed.
pub struct AppState {
    pub cols: Vec<Col>,
    pub parsing_percent: u32,
}

/// The single owner of the current schema state and of the raw record
/// store.  Mutations go through the two publishing entry points; each
/// returns the full-state envelope to broadcast.
pub struct Store {
    inner: AppState,
    raw: RawStore,
}

impl Store {
    /// The held column list.
    pub closed spec fn cols_seq(&self) -> Seq<Col> {
        self.inner.cols@
    }

    /// The ingestion progress, in percent.
    pub closed spec fn progress(&self) -> u32 {
        self.inner.parsing_percent
    }

    /// The held raw records.
    pub closed spec fn raw_view(&self) -> Seq<Seq<char>> {
        self.raw@
    }

    /// Well-formedness: column names are unique and progress is a
    /// percentage.
    pub closed spec fn wf(&self) -> bool {
        &&& forall|i: int, j: int|
            0 <= i < j < self.cols_seq().len() ==> (#[trigger] self.cols_seq()[i]).name@ != (
            #[trigger] self.cols_seq()[j]).name@
        &&& self.inner.parsing_percent <= 100
    }

    pub fn new() -> (r: Store)
        ensures
            r.wf(),
            r.cols_seq() == Seq::<Col>::empty(),
            r.progress() == 0,
            r.raw_view() == Seq::<Seq<char>>::empty(),
    {
        Store { inner: AppState { cols: Vec::new(), parsing_percent: 0 }, raw: RawStore::new() }
    }

    /// Read access to the current columns.
    pub fn cols(&self) -> (r: &Vec<Col>)
        ensures
            r@ == self.cols_seq(),
    {
        &self.inner.cols
    }

    /// Read access to the raw records.
    pub fn records(&self) -> (r: &Vec<String>)
        ensures
            strs_view(r@) == self.raw_view(),
            r@.len() == self.raw_view().len(),
    {
        self.raw.scan()
    }

    /// Apply one state delta and return the full-state envelope to
    /// broadcast.  A `ColumnMeta` delta merges facet-wise: a column
    /// already held keeps every facet the incoming column does not
    /// carry; an unknown name is appended.  A `Progress` delta replaces
    /// the progress value.
    pub fn publish(&mut self, data: PubData) -> (r: PubPayload)
        requires
            old(self).wf(),
            data matches PubData::Progress { parsing_percent } ==> parsing_percent <= 100,
        ensures
            final(self).wf(),
            final(self).raw_view() == old(self).raw_view(),
            match data {
                PubData::Progress { parsing_percent } => {
                    &&& final(self).progress() == parsing_percent
                    &&& final(self).cols_seq() == old(self).cols_seq()
                    &&& r.pub_type == PubTypes::Progress
                    &&& (r.data matches PubData::Progress { parsing_percent: p2 } && p2
                        == parsing_percent)
                },
                PubData::ColumnMeta { cols } => {
                    &&& final(self).progress() == old(self).progress()
                    &&& final(self).cols_seq() == merge_cols(old(self).cols_seq(), cols@)
                    &&& r.pub_type == PubTypes::ColumnMeta
                    &&& (r.data matches PubData::ColumnMeta { cols: pc } && cols_views(pc@)
                        == cols_views(final(self).cols_seq()))
                },
            },
    {
        match data {
            PubData::Progress { parsing_percent } => {
                self.inner.parsing_percent = parsing_percent;
                PubPayload {
                    pub_type: PubTypes::Progress,
                    data: PubData::Progress { parsing_percent },
                }
            },
            PubData::ColumnMeta { cols } => {
                let ghost cur0 = self.inner.cols@;
                let ghost inc0 = cols@;
                let ghost raw0 = self.raw@;
                let ghost pct0 = self.inner.parsing_percent;
                let mut inc = cols;
                while inc.len() > 0
                    invariant
                        merge_cols(cur0, inc0) == merge_cols(self.inner.cols@, inc@),
                        self.raw@ == raw0,
                        self.inner.parsing_percent == pct0,
                    decreases inc@.len(),
                {
                    let ghost pre_inc = inc@;
                    let ghost pre_cols = self.inner.cols@;
                    let c = inc.remove(0);
                    proof {
                        assert(pre_inc.remove(0) =~= pre_inc.drop_first());
                        assert(c == pre_inc.first());
                    }
                    let mut i: usize = 0;
                    let mut found = false;
                    while i < self.inner.cols.len() && !found
                        invariant
                            i <= self.inner.cols@.len(),
                            self.inner.cols@ == pre_cols,
                            !found ==> forall|k: int|
                                0 <= k < i ==> (#[trigger] pre_cols[k]).name@ != c.name@,
                            found ==> i < pre_cols.len() && pre_cols[i as int].name@ == c.name@
                                && (forall|k: int|
                                0 <= k < i ==> (#[trigger] pre_cols[k]).name@ != c.name@),
                        decreases pre_cols.len() - i + (if found {
                            0int
                        } else {
                            1int
                        }),
                    {
                        if self.inner.cols[i].name == c.name {
                            found = true;
                        } else {
                            i = i + 1;
                        }
                    }
                    if found {
                        proof {
                            lemma_idx_of_first(pre_cols, c.name@, i as int);
                        }
                        let Col { name: _, meta: cm, filter: cf } = c;
                        let mut held = self.inner.cols.remove(i);
                        if cm.is_some() {
                            held.meta = cm;
                        }
                        if cf.is_some() {
                            held.filter = cf;
                        }
                        self.inner.cols.insert(i, held);
                        proof {
                            assert(self.inner.cols@ =~= pre_cols.update(
                                i as int,
                                merged_col(pre_cols[i as int], pre_inc.first()),
                            ));
                        }
                    } else {
                        proof {
                            lemma_idx_of_absent(pre_cols, c.name@);
                        }
                        self.inner.cols.push(c);
                        proof {
                            assert(self.inner.cols@ =~= merge_one(pre_cols, pre_inc.first()));
                        }
                    }
                }
                proof {
                    assert(self.inner.cols@ == merge_cols(cur0, inc0));
                    lemma_merge_unique(cur0, inc0);
                }
                PubPayload {
                    pub_type: PubTypes::ColumnMeta,
                    data: PubData::ColumnMeta { cols: dup_cols(&self.inner.cols) },
                }
            },
        }
    }

    /// Record a user's projection/filter intent for one column: the
    /// filter facet is replaced, the meta facet (and every other
    /// column) is left exactly as it was; an unknown name is appended
    /// as a bare column with only its filter set.
    pub fn configure_column(
        &mut self,
        name: String,
        should_select: bool,
        condition: Option<Condition>,
    ) -> (r: PubPayload)
        requires
            old(self).wf(),
        ensures
            final(self).wf(),
            final(self).raw_view() == old(self).raw_view(),
            final(self).progress() == old(self).progress(),
            final(self).cols_seq() == merge_cols(
                old(self).cols_seq(),
                seq![
                    Col {
                        name: name,
                        meta: None,
                        filter: Some(ColFilter { should_select, condition }),
                    },
                ],
            ),
            old(self).cols_seq().len() <= final(self).cols_seq().len(),
            forall|i: int|
                0 <= i < old(self).cols_seq().len() ==> (#[trigger] final(self).cols_seq()[i]).name
                    == old(self).cols_seq()[i].name,
            forall|i: int|
                0 <= i < old(self).cols_seq().len() ==> (#[trigger] final(self).cols_seq()[i]).meta
                    == old(self).cols_seq()[i].meta,
            idx_of(old(self).cols_seq(), name@) < 0 ==> final(self).cols_seq() == old(
                self,
            ).cols_seq().push(
                Col { name: name, meta: None, filter: Some(ColFilter { should_select, condition }) },
            ),
            idx_of(old(self).cols_seq(), name@) >= 0 ==> final(self).cols_seq() == old(
                self,
            ).cols_seq().update(
                idx_of(old(self).cols_seq(), name@),
                Col {
                    name: old(self).cols_seq()[idx_of(old(self).cols_seq(), name@)].name,
                    meta: old(self).cols_seq()[idx_of(old(self).cols_seq(), name@)].meta,
                    filter: Some(ColFilter { should_select, condition }),
                },
            ),
            r.pub_type == PubTypes::ColumnMeta,
            (r.data matches PubData::ColumnMeta { cols: pc } && cols_views(pc@) == cols_views(
                final(self).cols_seq(),
            )),
    {
        let c = Col { name, meta: None, filter: Some(ColFilter { should_select, condition }) };
        let ghost single = seq![c];
        let mut v: Vec<Col> = Vec::new();
        v.push(c);
        proof {
            assert(v@ =~= single);
        }
        let r = self.publish(PubData::ColumnMeta { cols: v });
        proof {
            lemma_merge_preserves(old(self).cols_seq(), single);
            assert(single.drop_first() =~= Seq::<Col>::empty());
            assert(merge_cols(merge_one(old(self).cols_seq(), single.first()), single.drop_first())
                == merge_one(old(self).cols_seq(), single.first()));
        }
        r
    }

    /// Replace the active source: discard every held record and
    /// column, store the non-empty lines in order, analyze them, and
    /// install the result.  Returns the terminal `Progress` envelope
    /// and the full `ColumnMeta` envelope, in broadcast order.
    #[verifier::loop_isolation(false)]
    pub fn ingest_lines(&mut self, lines: Vec<String>) -> (r: (PubPayload, PubPayload))
        requires
            old(self).wf(),
        ensures
            final(self).wf(),
            final(self).raw_view() == keep_nonempty(strs_view(lines@)),
            final(self).raw_view().len() == count_nonempty(strs_view(lines@)),
            final(self).progress() == 100,
            crate::analyze::analysis_matches(final(self).raw_view(), final(self).cols_seq()),
            r.0.pub_type == PubTypes::Progress,
            (r.0.data matches PubData::Progress { parsing_percent } && parsing_percent == 100),
            r.1.pub_type == PubTypes::ColumnMeta,
            (r.1.data matches PubData::ColumnMeta { cols } && cols_views(cols@) == cols_views(
                final(self).cols_seq(),
            )),
    {
        let ghost ls = strs_view(lines@);
        self.raw.reset();
        let mut i: usize = 0;
        proof {
            assert(keep_nonempty(ls.take(0)) =~= Seq::<Seq<char>>::empty());
        }
        while i < lines.len()
            invariant
                i <= lines@.len(),
                self.raw@ == keep_nonempty(ls.take(i as int)),
                self.inner == old(self).inner,
            decreases lines@.len() - i,
        {
            proof {
                assert(ls.take(i + 1).drop_last() =~= ls.take(i as int));
                assert(ls.take(i + 1).last() == ls[i as int]);
                assert(ls[i as int] == lines@[i as int]@);
            }
            if !lines[i].as_str().is_empty() {
                self.raw.append(lines[i].clone());
            }
            i = i + 1;
        }
        proof {
            assert(ls.take(ls.len() as int) =~= ls);
            lemma_ingestion_count(ls);
        }
        let cols = crate::analyze::analyze(self.raw.scan());
        proof {
            crate::analyze::lemma_keys_unique(self.raw@);
        }
        self.inner.cols = cols;
        self.inner.parsing_percent = 100;
        let p1 = PubPayload {
            pub_type: PubTypes::Progress,
            data: PubData::Progress { parsing_percent: 100 },
        };
        let p2 = PubPayload {
            pub_type: PubTypes::ColumnMeta,
            data: PubData::ColumnMeta { cols: dup_cols(&self.inner.cols) },
        };
        (p1, p2)
    }

    /// Point-in-time snapshot of the current value of one state kind,
    /// for late subscribers.
    pub fn get(&self, pub_type: PubTypes) -> (r: PubData)
        ensures
            match pub_type {
                PubTypes::ColumnMeta => r matches PubData::ColumnMeta { cols } && cols_views(cols@)
                    == cols_views(self.cols_seq()),
                PubTypes::Progress => r matches PubData::Progress { parsing_percent }
                    && parsing_percent == self.progress(),
            },
    {
        match pub_type {
            PubTypes::ColumnMeta => PubData::ColumnMeta { cols: dup_cols(&self.inner.cols) },
            PubTypes::Progress => PubData::Progress {
                parsing_percent: self.inner.parsing_percent,
            },
        }
    }
}

} // verus!
