//! The canonical logical column types and the rule that collapses the
//! set of JSON value kinds observed for a key into one of them.
use vstd::prelude::*;

verus! {

/// The canonical logical type assigned to a column after normalization.
#[derive(Clone, Copy, Debug, PartialEq, Eq, Structural)]
pub enum DataType {
    Bool,
    Text,
    Real,
    JSON,
}

/// Which JSON value kinds have been observed for a key.  The kind names
/// follow the JSON tree walk: `null`, `true`, `false`, `integer`,
/// `real`, `text`, `array`, `object`.  `has_other` records a token that
/// names none of them.
#[derive(Clone, Copy, Debug, PartialEq, Eq, Structural)]
pub struct KindSet {
    pub has_null: bool,
    pub has_true: bool,
    pub has_false: bool,
    pub has_integer: bool,
    pub has_real: bool,
    pub has_text: bool,
    pub has_array: bool,
    pub has_object: bool,
    pub has_other: bool,
}

impl KindSet {
    /// The empty kind set: nothing observed yet.
    pub fn empty() -> (r: KindSet)
        ensures
            r == KindSet::empty_spec(),
    {
        KindSet {
            has_null: false,
            has_true: false,
            has_false: false,
            has_integer: false,
            has_real: false,
            has_text: false,
            has_array: false,
            has_object: false,
            has_other: false,
        }
    }

    pub open spec fn empty_spec() -> KindSet {
        KindSet {
            has_null: false,
            has_true: false,
            has_false: false,
            has_integer: false,
            has_real: false,
            has_text: false,
            has_array: false,
            has_object: false,
            has_other: false,
        }
    }

}

/// The normalization rule.  `null` is treated as absence, never as
/// evidence.  Any textual evidence dominates; an empty set (or a
/// mixture that fits no bucket) falls back to `Text`, the safe default.
pub open spec fn normalize_spec(k: KindSet) -> DataType {
    let no_bool = !k.has_true && !k.has_false;
    let no_num = !k.has_integer && !k.has_real;
    let no_json = !k.has_array && !k.has_object;
    if k.has_text {
        DataType::Text
    } else if no_bool && no_num && no_json && !k.has_other {
        DataType::Text
    } else if no_num && no_json && !k.has_other {
        DataType::Bool
    } else if no_bool && no_json && !k.has_other {
        DataType::Real
    } else if no_bool && no_num && !k.has_other {
        DataType::JSON
    } else {
        DataType::Text
    }
}

/// Collapse an observed kind set into the column's logical type.
pub fn normalize_kinds(k: KindSet) -> (r: DataType)
    ensures
        r == normalize_spec(k),
{
    let no_bool = !k.has_true && !k.has_false;
    let no_num = !k.has_integer && !k.has_real;
    let no_json = !k.has_array && !k.has_object;
    if k.has_text {
        DataType::Text
    } else if no_bool && no_num && no_json && !k.has_other {
        DataType::Text
    } else if no_num && no_json && !k.has_other {
        DataType::Bool
    } else if no_bool && no_json && !k.has_other {
        DataType::Real
    } else if no_bool && no_num && !k.has_other {
        DataType::JSON
    } else {
        DataType::Text
    }
}

/// Record one kind-name token in the set; a token that names no JSON
/// kind sets `has_other`, which forces the `Text` fallback.
pub open spec fn record_token(k: KindSet, t: Seq<char>) -> KindSet {
    if t == seq!['n', 'u', 'l', 'l'] {
        KindSet { has_null: true, ..k }
    } else if t == seq!['t', 'r', 'u', 'e'] {
        KindSet { has_true: true, ..k }
    } else if t == seq!['f', 'a', 'l', 's', 'e'] {
        KindSet { has_false: true, ..k }
    } else if t == seq!['i', 'n', 't', 'e', 'g', 'e', 'r'] {
        KindSet { has_integer: true, ..k }
    } else if t == seq!['r', 'e', 'a', 'l'] {
        KindSet { has_real: true, ..k }
    } else if t == seq!['t', 'e', 'x', 't'] {
        KindSet { has_text: true, ..k }
    } else if t == seq!['a', 'r', 'r', 'a', 'y'] {
        KindSet { has_array: true, ..k }
    } else if t == seq!['o', 'b', 'j', 'e', 'c', 't'] {
        KindSet { has_object: true, ..k }
    } else {
        KindSet { has_other: true, ..k }
    }
}

/// The kind set named by a comma-separated list of kind tokens, walked
/// left to right; `i` is the cursor and `start` the current token's
/// first character.
pub open spec fn kinds_of_merged(s: Seq<char>, i: int, start: int, k: KindSet) -> KindSet
    decreases s.len() - i,
{
    if i < 0 || start < 0 || i > s.len() || start > i {
        k
    } else if i == s.len() {
        record_token(k, s.subrange(start, i))
    } else if s[i] == ',' {
        kinds_of_merged(s, i + 1, i + 1, record_token(k, s.subrange(start, i)))
    } else {
        kinds_of_merged(s, i + 1, start, k)
    }
}

/// Executable twin of `record_token` on the slice `t[i..j]`.
fn record_token_exec(k: KindSet, t: &Vec<char>, i: usize, j: usize) -> (r: KindSet)
    requires
        i <= j <= t@.len(),
    ensures
        r == record_token(k, t@.subrange(i as int, j as int)),
{
    let n = j - i;
    let ghost tok = t@.subrange(i as int, j as int);
    if n == 4 && t[i] == 'n' && t[i + 1] == 'u' && t[i + 2] == 'l' && t[i + 3] == 'l' {
        assert(tok =~= seq!['n', 'u', 'l', 'l']);
        KindSet { has_null: true, ..k }
    } else if n == 4 && t[i] == 't' && t[i + 1] == 'r' && t[i + 2] == 'u' && t[i + 3] == 'e' {
        assert(tok =~= seq!['t', 'r', 'u', 'e']);
        KindSet { has_true: true, ..k }
    } else if n == 5 && t[i] == 'f' && t[i + 1] == 'a' && t[i + 2] == 'l' && t[i + 3] == 's'
        && t[i + 4] == 'e' {
        assert(tok =~= seq!['f', 'a', 'l', 's', 'e']);
        KindSet { has_false: true, ..k }
    } else if n == 7 && t[i] == 'i' && t[i + 1] == 'n' && t[i + 2] == 't' && t[i + 3] == 'e'
        && t[i + 4] == 'g' && t[i + 5] == 'e' && t[i + 6] == 'r' {
        assert(tok =~= seq!['i', 'n', 't', 'e', 'g', 'e', 'r']);
        KindSet { has_integer: true, ..k }
    } else if n == 4 && t[i] == 'r' && t[i + 1] == 'e' && t[i + 2] == 'a' && t[i + 3] == 'l' {
        assert(tok =~= seq!['r', 'e', 'a', 'l']);
        KindSet { has_real: true, ..k }
    } else if n == 4 && t[i] == 't' && t[i + 1] == 'e' && t[i + 2] == 'x' && t[i + 3] == 't' {
        assert(tok =~= seq!['t', 'e', 'x', 't']);
        KindSet { has_text: true, ..k }
    } else if n == 5 && t[i] == 'a' && t[i + 1] == 'r' && t[i + 2] == 'r' && t[i + 3] == 'a'
        && t[i + 4] == 'y' {
        assert(tok =~= seq!['a', 'r', 'r', 'a', 'y']);
        KindSet { has_array: true, ..k }
    } else if n == 6 && t[i] == 'o' && t[i + 1] == 'b' && t[i + 2] == 'j' && t[i + 3] == 'e'
        && t[i + 4] == 'c' && t[i + 5] == 't' {
        assert(tok =~= seq!['o', 'b', 'j', 'e', 'c', 't']);
        KindSet { has_object: true, ..k }
    } else {
        proof {
            assert(tok.len() == j - i);
            assert(forall|q: int| 0 <= q < tok.len() ==> tok[q] == t@[i + q]);
            assert(tok != seq!['n', 'u', 'l', 'l']);
            assert(tok != seq!['t', 'r', 'u', 'e']);
            assert(tok != seq!['f', 'a', 'l', 's', 'e']);
            assert(tok != seq!['i', 'n', 't', 'e', 'g', 'e', 'r']);
            assert(tok != seq!['r', 'e', 'a', 'l']);
            assert(tok != seq!['t', 'e', 'x', 't']);
            assert(tok != seq!['a', 'r', 'r', 'a', 'y']);
            assert(tok != seq!['o', 'b', 'j', 'e', 'c', 't']);
        }
        KindSet { has_other: true, ..k }
    }
}

/// The kind set of a comma-separated kind list, from its start.
pub open spec fn kinds_of_merged_full(s: Seq<char>) -> KindSet {
    kinds_of_merged(s, 0, 0, KindSet::empty_spec())
}

/// Collapse the comma-separated kind-name list observed for one key
/// (as a JSON tree walk reports it) into the column's logical type.
pub fn normalize_json_each_types(merged_type: String) -> (r: DataType)
    ensures
        r == normalize_spec(kinds_of_merged_full(merged_type@)),
{
    let t = crate::text::chars_of(merged_type.as_str());
    let mut k = KindSet::empty();
    let mut start: usize = 0;
    let mut i: usize = 0;
    while i < t.len()
        invariant
            start <= i <= t@.len(),
            t@ == merged_type@,
            kinds_of_merged(t@, 0, 0, KindSet::empty_spec()) == kinds_of_merged(
                t@,
                i as int,
                start as int,
                k,
            ),
        decreases t@.len() - i,
    {
        if t[i] == ',' {
            k = record_token_exec(k, &t, start, i);
            start = i + 1;
        }
        i = i + 1;
    }
    k = record_token_exec(k, &t, start, i);
    normalize_kinds(k)
}

} // verus!
