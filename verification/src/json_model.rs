//! JSON values as plain data, and the check that one value contains another: every key of
//! an expected object is present with a contained value, arrays match item by item, and
//! anything else must be equal.
use vstd::prelude::*;

verus! {

/// A JSON value. Numbers keep their canonical text; objects keep their entries in order.
#[derive(Debug)]
pub enum JsonValue {
    Null,
    Bool(bool),
    Number(String),
    Text(String),
    Array(Vec<JsonValue>),
    Object(Vec<(String, JsonValue)>),
}

/// Whether two JSON values are equal: same kind and same contents, entries in order.
pub open spec fn json_eq(a: JsonValue, b: JsonValue) -> bool
    decreases a,
{
    match (a, b) {
        (JsonValue::Null, JsonValue::Null) => true,
        (JsonValue::Bool(x), JsonValue::Bool(y)) => x == y,
        (JsonValue::Number(x), JsonValue::Number(y)) => x@ == y@,
        (JsonValue::Text(x), JsonValue::Text(y)) => x@ == y@,
        (JsonValue::Array(xs), JsonValue::Array(ys)) => xs@.len() == ys@.len() && forall|i: int|
            0 <= i < xs@.len() ==> json_eq(#[trigger] xs@[i], ys@[i]),
        (JsonValue::Object(xs), JsonValue::Object(ys)) => xs@.len() == ys@.len() && forall|i: int|
            0 <= i < xs@.len() ==> (#[trigger] xs@[i]).0@ == ys@[i].0@ && json_eq(xs@[i].1, ys@[i].1),
        _ => false,
    }
}

/// One step of the path to a mismatch: an object key or an array index.
#[derive(Debug, Clone)]
pub enum PathStep {
    Key(String),
    Index(usize),
}

/// What differs where a check fails.
#[derive(Debug)]
pub enum MismatchKind {
    MissingKey(String),
    LengthMismatch { expected: usize, actual: usize },
    ValueMismatch { expected: JsonValue, actual: JsonValue },
}

/// The first place where the actual value does not contain the expected one.
#[derive(Debug)]
pub struct SubsetMismatch {
    pub path: Vec<PathStep>,
    pub kind: MismatchKind,
}

/// A path step as plain values.
pub enum StepView {
    Key(Seq<char>),
    Index(int),
}

/// A mismatch kind as plain values.
pub enum KindView {
    MissingKey(Seq<char>),
    LengthMismatch(int, int),
    ValueMismatch(JsonValue, JsonValue),
}

/// A mismatch as plain values.
pub struct MismatchView {
    pub path: Seq<StepView>,
    pub kind: KindView,
}

pub open spec fn step_view(s: PathStep) -> StepView {
    match s {
        PathStep::Key(k) => StepView::Key(k@),
        PathStep::Index(i) => StepView::Index(i as int),
    }
}

pub open spec fn mismatch_view(m: SubsetMismatch) -> MismatchView {
    MismatchView {
        path: m.path@.map_values(|s: PathStep| step_view(s)),
        kind: match m.kind {
            MismatchKind::MissingKey(k) => KindView::MissingKey(k@),
            MismatchKind::LengthMismatch { expected, actual } => KindView::LengthMismatch(
                expected as int,
                actual as int,
            ),
            MismatchKind::ValueMismatch { expected, actual } => KindView::ValueMismatch(
                expected,
                actual,
            ),
        },
    }
}

/// The mismatch with one more step in front of its path.
pub open spec fn prefixed(step: StepView, m: MismatchView) -> MismatchView {
    MismatchView { path: seq![step] + m.path, kind: m.kind }
}

/// The value under `key` among `entries` (the first entry with that key).
pub open spec fn lookup(entries: Seq<(String, JsonValue)>, key: Seq<char>) -> Option<JsonValue>
    decreases entries.len(),
{
    if entries.len() == 0 {
        None
    } else if entries[0].0@ == key {
        Some(entries[0].1)
    } else {
        lookup(entries.drop_first(), key)
    }
}

/// The first mismatch between `actual` and `expected`, or none when `actual` contains
/// `expected`.
pub open spec fn subset_mismatch(actual: JsonValue, expected: JsonValue) -> Option<MismatchView>
    decreases expected, 1int, 0int,
{
    match (actual, expected) {
        (JsonValue::Object(am), JsonValue::Object(_)) => entries_mismatch(am@, expected, 0),
        (JsonValue::Array(ai), JsonValue::Array(ei)) => if ai@.len() != ei@.len() {
            Some(
                MismatchView {
                    path: Seq::empty(),
                    kind: KindView::LengthMismatch(ei@.len() as int, ai@.len() as int),
                },
            )
        } else {
            items_mismatch(ai@, expected, 0)
        },
        _ => if json_eq(actual, expected) {
            None
        } else {
            Some(
                MismatchView {
                    path: Seq::empty(),
                    kind: KindView::ValueMismatch(expected, actual),
                },
            )
        },
    }
}

/// The first mismatch among the expected object's entries from the `i`-th on.
pub open spec fn entries_mismatch(actual: Seq<(String, JsonValue)>, expected: JsonValue, i: nat) -> Option<
    MismatchView,
>
    decreases expected, 0int, match expected {
        JsonValue::Object(em) => em@.len() - i,
        _ => 0,
    },
{
    match expected {
        JsonValue::Object(em) => if i >= em@.len() {
            None
        } else {
            let key = em@[i as int].0@;
            match lookup(actual, key) {
                None => Some(MismatchView { path: Seq::empty(), kind: KindView::MissingKey(key) }),
                Some(av) => match subset_mismatch(av, em@[i as int].1) {
                    Some(m) => Some(prefixed(StepView::Key(key), m)),
                    None => entries_mismatch(actual, expected, i + 1),
                },
            }
        },
        _ => None,
    }
}

/// The first mismatch among the expected array's items from the `i`-th on.
pub open spec fn items_mismatch(actual: Seq<JsonValue>, expected: JsonValue, i: nat) -> Option<MismatchView>
    decreases expected, 0int, match expected {
        JsonValue::Array(ei) => ei@.len() - i,
        _ => 0,
    },
{
    match expected {
        JsonValue::Array(ei) => if i >= ei@.len() || i >= actual.len() {
            None
        } else {
            match subset_mismatch(actual[i as int], ei@[i as int]) {
                Some(m) => Some(prefixed(StepView::Index(i as int), m)),
                None => items_mismatch(actual, expected, i + 1),
            }
        },
        _ => None,
    }
}

fn same_text(a: &String, b: &String) -> (r: bool)
    ensures
        r == (a@ == b@),
{
    a.eq(b)
}

/// Whether two JSON values are equal.
pub fn json_equal(a: &JsonValue, b: &JsonValue) -> (r: bool)
    ensures
        r == json_eq(*a, *b),
    decreases *a,
{
    match (a, b) {
        (JsonValue::Null, JsonValue::Null) => true,
        (JsonValue::Bool(x), JsonValue::Bool(y)) => *x == *y,
        (JsonValue::Number(x), JsonValue::Number(y)) => same_text(x, y),
        (JsonValue::Text(x), JsonValue::Text(y)) => same_text(x, y),
        (JsonValue::Array(xs), JsonValue::Array(ys)) => {
            if xs.len() != ys.len() {
                return false;
            }
            let mut i: usize = 0;
            while i < xs.len()
                invariant
                    i <= xs@.len(),
                    xs@.len() == ys@.len(),
                    *a == JsonValue::Array(*xs),
                    *b == JsonValue::Array(*ys),
                    forall|k: int| 0 <= k < i ==> json_eq(#[trigger] xs@[k], ys@[k]),
                decreases xs@.len() - i,
            {
                assert(decreases_to!(*a => (*a)->Array_0));
                assert(decreases_to!(*xs => xs@));
                assert(decreases_to!(xs@ => xs@[i as int]));
                if !json_equal(&xs[i], &ys[i]) {
                    assert(!json_eq(xs@[i as int], ys@[i as int]));
                    return false;
                }
                i += 1;
            }
            true
        },
        (JsonValue::Object(xs), JsonValue::Object(ys)) => {
            if xs.len() != ys.len() {
                return false;
            }
            let mut i: usize = 0;
            while i < xs.len()
                invariant
                    i <= xs@.len(),
                    xs@.len() == ys@.len(),
                    *a == JsonValue::Object(*xs),
                    *b == JsonValue::Object(*ys),
                    forall|k: int|
                        0 <= k < i ==> (#[trigger] xs@[k]).0@ == ys@[k].0@ && json_eq(xs@[k].1, ys@[k].1),
                decreases xs@.len() - i,
            {
                assert(decreases_to!(*a => (*a)->Object_0));
                assert(decreases_to!(*xs => xs@));
                assert(decreases_to!(xs@ => xs@[i as int]));
                assert(decreases_to!(xs@[i as int] => xs@[i as int].1));
                if !same_text(&xs[i].0, &ys[i].0) {
                    assert(!(xs@[i as int].0@ == ys@[i as int].0@));
                    return false;
                }
                if !json_equal(&xs[i].1, &ys[i].1) {
                    assert(!json_eq(xs@[i as int].1, ys@[i as int].1));
                    return false;
                }
                i += 1;
            }
            true
        },
        _ => false,
    }
}

/// Two mismatches agree: same path, same kind, and equal values where they hold values.
pub open spec fn mismatch_agrees(a: MismatchView, b: MismatchView) -> bool {
    &&& a.path == b.path
    &&& match (a.kind, b.kind) {
        (KindView::MissingKey(x), KindView::MissingKey(y)) => x == y,
        (KindView::LengthMismatch(e1, a1), KindView::LengthMismatch(e2, a2)) => e1 == e2 && a1 == a2,
        (KindView::ValueMismatch(e1, a1), KindView::ValueMismatch(e2, a2)) => json_eq(e1, e2)
            && json_eq(a1, a2),
        _ => false,
    }
}

/// A copy of a JSON value.
pub fn duplicate_json(v: &JsonValue) -> (r: JsonValue)
    ensures
        json_eq(r, *v),
    decreases *v,
{
    match v {
        JsonValue::Null => JsonValue::Null,
        JsonValue::Bool(b) => JsonValue::Bool(*b),
        JsonValue::Number(n) => JsonValue::Number(n.clone()),
        JsonValue::Text(t) => JsonValue::Text(t.clone()),
        JsonValue::Array(items) => {
            let mut out: Vec<JsonValue> = Vec::new();
            let mut i: usize = 0;
            while i < items.len()
                invariant
                    i <= items@.len(),
                    *v == JsonValue::Array(*items),
                    out@.len() == i,
                    forall|k: int| 0 <= k < i ==> json_eq(#[trigger] out@[k], items@[k]),
                decreases items@.len() - i,
            {
                assert(decreases_to!(*v => (*v)->Array_0));
                assert(decreases_to!(*items => items@));
                assert(decreases_to!(items@ => items@[i as int]));
                out.push(duplicate_json(&items[i]));
                i += 1;
            }
            JsonValue::Array(out)
        },
        JsonValue::Object(entries) => {
            let mut out: Vec<(String, JsonValue)> = Vec::new();
            let mut i: usize = 0;
            while i < entries.len()
                invariant
                    i <= entries@.len(),
                    *v == JsonValue::Object(*entries),
                    out@.len() == i,
                    forall|k: int|
                        0 <= k < i ==> (#[trigger] out@[k]).0@ == entries@[k].0@ && json_eq(
                            out@[k].1,
                            entries@[k].1,
                        ),
                decreases entries@.len() - i,
            {
                assert(decreases_to!(*v => (*v)->Object_0));
                assert(decreases_to!(*entries => entries@));
                assert(decreases_to!(entries@ => entries@[i as int]));
                assert(decreases_to!(entries@[i as int] => entries@[i as int].1));
                out.push((entries[i].0.clone(), duplicate_json(&entries[i].1)));
                i += 1;
            }
            JsonValue::Object(out)
        },
    }
}

fn find_entry<'a>(entries: &'a Vec<(String, JsonValue)>, key: &String) -> (r: Option<&'a JsonValue>)
    ensures
        match r {
            Some(v) => lookup(entries@, key@) == Some(*v),
            None => lookup(entries@, key@) is None,
        },
{
    let mut i: usize = 0;
    assert(entries@.skip(0) =~= entries@);
    while i < entries.len()
        invariant
            i <= entries@.len(),
            lookup(entries@.skip(i as int), key@) == lookup(entries@, key@),
        decreases entries@.len() - i,
    {
        assert(entries@.skip(i as int).drop_first() =~= entries@.skip(i as int + 1));
        if same_text(&entries[i].0, key) {
            return Some(&entries[i].1);
        }
        i += 1;
    }
    assert(entries@.skip(i as int).len() == 0);
    None
}

fn with_step(step: PathStep, m: SubsetMismatch) -> (r: SubsetMismatch)
    ensures
        mismatch_view(r) == prefixed(step_view(step), mismatch_view(m)),
{
    let mut path: Vec<PathStep> = Vec::new();
    path.push(step);
    let mut rest = m.path;
    let ghost rest_view = rest@;
    path.append(&mut rest);
    let r = SubsetMismatch { path, kind: m.kind };
    assert(r.path@.map_values(|s: PathStep| step_view(s)) =~= seq![step_view(step)]
        + rest_view.map_values(|s: PathStep| step_view(s)));
    r
}

/// Checks that `actual` contains `expected`; on failure gives the first mismatch.
pub fn assert_expected_subset(actual: &JsonValue, expected: &JsonValue) -> (r: Result<(), SubsetMismatch>)
    ensures
        match r {
            Ok(()) => subset_mismatch(*actual, *expected) is None,
            Err(m) => subset_mismatch(*actual, *expected) matches Some(v) && mismatch_agrees(
                mismatch_view(m),
                v,
            ),
        },
    decreases *expected,
{
    match (actual, expected) {
        (JsonValue::Object(actual_map), JsonValue::Object(expected_map)) => {
            let mut i: usize = 0;
            while i < expected_map.len()
                invariant
                    i <= expected_map@.len(),
                    *actual == JsonValue::Object(*actual_map),
                    *expected == JsonValue::Object(*expected_map),
                    subset_mismatch(*actual, *expected) == entries_mismatch(
                        actual_map@,
                        *expected,
                        i as nat,
                    ),
                decreases expected_map@.len() - i,
            {
                let key = &expected_map[i].0;
                let found = match find_entry(actual_map, key) {
                    Some(v) => v,
                    None => {
                        let m = SubsetMismatch {
                            path: Vec::new(),
                            kind: MismatchKind::MissingKey(key.clone()),
                        };
                        assert(mismatch_view(m).path =~= Seq::<StepView>::empty());
                        return Err(m);
                    },
                };
                assert(decreases_to!(*expected => (*expected)->Object_0));
                assert(decreases_to!(*expected_map => expected_map@));
                assert(decreases_to!(expected_map@ => expected_map@[i as int]));
                assert(decreases_to!(expected_map@[i as int] => expected_map@[i as int].1));
                match assert_expected_subset(found, &expected_map[i].1) {
                    Ok(()) => {},
                    Err(m) => {
                        let r = with_step(PathStep::Key(key.clone()), m);
                        return Err(r);
                    },
                }
                i += 1;
            }
            Ok(())
        },
        (JsonValue::Array(actual_items), JsonValue::Array(expected_items)) => {
            if actual_items.len() != expected_items.len() {
                let m = SubsetMismatch {
                    path: Vec::new(),
                    kind: MismatchKind::LengthMismatch {
                        expected: expected_items.len(),
                        actual: actual_items.len(),
                    },
                };
                assert(mismatch_view(m).path =~= Seq::<StepView>::empty());
                return Err(m);
            }
            let mut i: usize = 0;
            while i < expected_items.len()
                invariant
                    i <= expected_items@.len(),
                    actual_items@.len() == expected_items@.len(),
                    *actual == JsonValue::Array(*actual_items),
                    *expected == JsonValue::Array(*expected_items),
                    subset_mismatch(*actual, *expected) == items_mismatch(
                        actual_items@,
                        *expected,
                        i as nat,
                    ),
                decreases expected_items@.len() - i,
            {
                assert(decreases_to!(*expected => (*expected)->Array_0));
                assert(decreases_to!(*expected_items => expected_items@));
                assert(decreases_to!(expected_items@ => expected_items@[i as int]));
                match assert_expected_subset(&actual_items[i], &expected_items[i]) {
                    Ok(()) => {},
                    Err(m) => {
                        return Err(with_step(PathStep::Index(i), m));
                    },
                }
                i += 1;
            }
            Ok(())
        },
        _ => {
            if json_equal(actual, expected) {
                Ok(())
            } else {
                let m = SubsetMismatch {
                    path: Vec::new(),
                    kind: MismatchKind::ValueMismatch {
                        expected: duplicate_json(expected),
                        actual: duplicate_json(actual),
                    },
                };
                assert(mismatch_view(m).path =~= Seq::<StepView>::empty());
                Err(m)
            }
        },
    }
}

} // verus!
