use vstd::prelude::*;
use vstd::string::StrSliceExecFns;
use crate::error::StoreError;
use crate::strutil::spec_parse_decimal;
use crate::strutil::parse_decimal_usize;
use crate::strutil::str_eq;
use crate::value::SpecValue;
use crate::value::Value;
use crate::value::lemma_table_model;
use crate::value::lemma_array_model;
use crate::value::table_model;
use crate::value::array_model;

verus! {

/// A parsed dotted path addressing a place inside a header document,
/// e.g. `tags.0` or `logging.level`.
#[derive(Debug)]
pub struct FieldPath {
    pub segments: Vec<String>,
}

impl View for FieldPath {
    type V = Seq<Seq<char>>;

    open spec fn view(&self) -> Seq<Seq<char>> {
        Seq::new(self.segments@.len(), |i: int| self.segments@[i]@)
    }
}

/// Splitting a character sequence at every occurrence of `sep`; the
/// result always has one more part than there are separators.
pub open spec fn spec_split(s: Seq<char>, sep: char) -> Seq<Seq<char>>
    decreases s.len(),
{
    if s.len() == 0 {
        seq![Seq::empty()]
    } else if s.last() == sep {
        spec_split(s.drop_last(), sep).push(Seq::empty())
    } else {
        let p = spec_split(s.drop_last(), sep);
        p.update(p.len() - 1, p.last().push(s.last()))
    }
}

/// A split result is never empty.
pub proof fn lemma_split_nonempty(s: Seq<char>, sep: char)
    ensures
        spec_split(s, sep).len() > 0,
    decreases s.len(),
{
    if s.len() > 0 {
        lemma_split_nonempty(s.drop_last(), sep);
    }
}

impl FieldPath {
    /// Builds a path from ready-made segments.
    pub fn new(segments: Vec<String>) -> (r: FieldPath)
        ensures
            r.segments == segments,
    {
        FieldPath { segments }
    }

    /// Parses a dotted path string: segments are the parts between the
    /// dots, in order, empty parts kept.
    #[verifier::loop_isolation(false)]
    pub fn parse(path: &str) -> (r: FieldPath)
        ensures
            r@ == spec_split(path@, '.'),
    {
        let len = path.unicode_len();
        let mut segments: Vec<String> = Vec::new();
        let mut start: usize = 0;
        let mut i: usize = 0;
        while i < len
            invariant
                len == path@.len(),
                start <= i <= len,
                spec_split(path@.subrange(0, i as int), '.').drop_last() =~= Seq::new(
                    segments@.len(),
                    |k: int| segments@[k]@,
                ),
                spec_split(path@.subrange(0, i as int), '.').last() =~= path@.subrange(
                    start as int,
                    i as int,
                ),
            decreases len - i,
        {
            let c = path.get_char(i);
            proof {
                lemma_split_nonempty(path@.subrange(0, i as int), '.');
                assert(path@.subrange(0, i + 1).drop_last() =~= path@.subrange(0, i as int));
                assert(path@.subrange(0, i + 1).last() == path@[i as int]);
            }
            if c == '.' {
                let seg = path.substring_char(start, i);
                segments.push(seg.to_owned());
                start = i + 1;
                proof {
                    let pre = spec_split(path@.subrange(0, i as int), '.');
                    assert(spec_split(path@.subrange(0, i + 1), '.') =~= pre.push(Seq::empty()));
                    assert(spec_split(path@.subrange(0, i + 1), '.').drop_last() =~= pre);
                    assert(pre =~= pre.drop_last().push(pre.last()));
                    assert(pre =~= Seq::new(segments@.len(), |k: int| segments@[k]@));
                }
            } else {
                proof {
                    let pre = spec_split(path@.subrange(0, i as int), '.');
                    let post = spec_split(path@.subrange(0, i + 1), '.');
                    assert(post =~= pre.update(pre.len() - 1, pre.last().push(path@[i as int])));
                    assert(post.drop_last() =~= pre.drop_last());
                    assert(post.last() =~= path@.subrange(start as int, i + 1));
                }
            }
            i = i + 1;
        }
        let seg = path.substring_char(start, len);
        segments.push(seg.to_owned());
        proof {
            assert(path@.subrange(0, len as int) =~= path@);
            let parts = spec_split(path@, '.');
            lemma_split_nonempty(path@, '.');
            assert(parts =~= parts.drop_last().push(parts.last()));
            assert(Seq::new(segments@.len(), |k: int| segments@[k]@) =~= parts);
        }
        FieldPath { segments }
    }
}

/// The value under `key` in a table, first occurrence deciding.
pub open spec fn spec_table_lookup(t: Seq<(Seq<char>, SpecValue)>, key: Seq<char>) -> Option<
    SpecValue,
>
    decreases t.len(),
{
    if t.len() == 0 {
        None
    } else if t[0].0 == key {
        Some(t[0].1)
    } else {
        spec_table_lookup(t.drop_first(), key)
    }
}

/// The table with the first `key` pair replaced by `(key, nv)`, or with
/// `(key, nv)` appended when no pair has that key.
pub open spec fn spec_table_update(
    t: Seq<(Seq<char>, SpecValue)>,
    key: Seq<char>,
    nv: SpecValue,
) -> Seq<(Seq<char>, SpecValue)>
    decreases t.len(),
{
    if t.len() == 0 {
        seq![(key, nv)]
    } else if t[0].0 == key {
        seq![(key, nv)] + t.drop_first()
    } else {
        seq![t[0]] + spec_table_update(t.drop_first(), key, nv)
    }
}

/// The array index a path segment denotes, if it is a decimal number that
/// fits the machine.
pub open spec fn spec_seg_index(seg: Seq<char>) -> Option<int> {
    spec_parse_decimal(seg, usize::MAX as int)
}

/// Navigation: the value reached from `v` along `path`.  A missing key, an
/// out-of-range or non-numeric array index, or a scalar met before the
/// path ends all yield `None`.
pub open spec fn spec_read(v: SpecValue, path: Seq<Seq<char>>) -> Option<SpecValue>
    decreases path.len(),
{
    if path.len() == 0 {
        Some(v)
    } else {
        match v {
            SpecValue::Table(t) => match spec_table_lookup(t, path[0]) {
                Some(child) => spec_read(child, path.subrange(1, path.len() as int)),
                None => None,
            },
            SpecValue::Array(items) => match spec_seg_index(path[0]) {
                Some(i) => if 0 <= i < items.len() {
                    spec_read(items[i], path.subrange(1, path.len() as int))
                } else {
                    None
                },
                None => None,
            },
            _ => None,
        }
    }
}

/// Insertion: the document obtained by placing `nv` at `path` inside `v`,
/// creating intermediate tables under missing keys.  `None` exactly when
/// the existing structure is incompatible: a scalar sits on the path, or
/// an array is addressed with a missing or out-of-range index.
pub open spec fn spec_write(v: SpecValue, path: Seq<Seq<char>>, nv: SpecValue) -> Option<SpecValue>
    decreases path.len(),
{
    if path.len() == 0 {
        Some(nv)
    } else {
        match v {
            SpecValue::Table(t) => {
                let child = match spec_table_lookup(t, path[0]) {
                    Some(c) => c,
                    None => SpecValue::Table(Seq::empty()),
                };
                match spec_write(child, path.subrange(1, path.len() as int), nv) {
                    Some(w) => Some(SpecValue::Table(spec_table_update(t, path[0], w))),
                    None => None,
                }
            },
            SpecValue::Array(items) => match spec_seg_index(path[0]) {
                Some(i) => if 0 <= i < items.len() {
                    match spec_write(items[i], path.subrange(1, path.len() as int), nv) {
                        Some(w) => Some(SpecValue::Array(items.update(i, w))),
                        None => None,
                    }
                } else {
                    None
                },
                None => None,
            },
            _ => None,
        }
    }
}

/// Looking up a key right after updating it finds the updated value.
pub proof fn lemma_table_update_lookup(
    t: Seq<(Seq<char>, SpecValue)>,
    key: Seq<char>,
    nv: SpecValue,
)
    ensures
        spec_table_lookup(spec_table_update(t, key, nv), key) == Some(nv),
    decreases t.len(),
{
    if t.len() == 0 {
    } else if t[0].0 == key {
    } else {
        lemma_table_update_lookup(t.drop_first(), key, nv);
        assert((seq![t[0]] + spec_table_update(t.drop_first(), key, nv)).drop_first()
            =~= spec_table_update(t.drop_first(), key, nv));
    }
}

/// Header document round trip: whenever a write succeeds, reading the
/// same path afterwards returns exactly the value that was written.
pub proof fn lemma_write_read_round_trip(v: SpecValue, path: Seq<Seq<char>>, nv: SpecValue)
    requires
        spec_write(v, path, nv) is Some,
    ensures
        spec_read(spec_write(v, path, nv).unwrap(), path) == Some(nv),
    decreases path.len(),
{
    if path.len() == 0 {
    } else {
        let rest = path.subrange(1, path.len() as int);
        match v {
            SpecValue::Table(t) => {
                let child = match spec_table_lookup(t, path[0]) {
                    Some(c) => c,
                    None => SpecValue::Table(Seq::empty()),
                };
                lemma_write_read_round_trip(child, rest, nv);
                let w = spec_write(child, rest, nv).unwrap();
                lemma_table_update_lookup(t, path[0], w);
            },
            SpecValue::Array(items) => {
                let i = spec_seg_index(path[0]).unwrap();
                lemma_write_read_round_trip(items[i], rest, nv);
            },
            _ => {},
        }
    }
}

/// Skipping a key-free prefix does not change what a lookup finds.
proof fn lemma_lookup_skip(t: Seq<(Seq<char>, SpecValue)>, key: Seq<char>, j: int)
    requires
        0 <= j <= t.len(),
        forall|m: int| 0 <= m < j ==> (#[trigger] t[m]).0 != key,
    ensures
        spec_table_lookup(t, key) == spec_table_lookup(t.subrange(j, t.len() as int), key),
    decreases j,
{
    if j > 0 {
        lemma_lookup_skip(t.drop_first(), key, j - 1);
        assert(t.drop_first().subrange(j - 1, t.drop_first().len() as int) =~= t.subrange(
            j,
            t.len() as int,
        ));
    } else {
        assert(t.subrange(0, t.len() as int) =~= t);
    }
}

/// A lookup that matches at the first occurrence `j` finds that pair.
proof fn lemma_lookup_found(t: Seq<(Seq<char>, SpecValue)>, key: Seq<char>, j: int)
    requires
        0 <= j < t.len(),
        forall|m: int| 0 <= m < j ==> (#[trigger] t[m]).0 != key,
        t[j].0 == key,
    ensures
        spec_table_lookup(t, key) == Some(t[j].1),
{
    lemma_lookup_skip(t, key, j);
    assert(t.subrange(j, t.len() as int)[0] == t[j]);
}

/// A lookup over a table with no matching pair finds nothing.
proof fn lemma_lookup_missing(t: Seq<(Seq<char>, SpecValue)>, key: Seq<char>)
    requires
        forall|m: int| 0 <= m < t.len() ==> (#[trigger] t[m]).0 != key,
    ensures
        spec_table_lookup(t, key) is None,
{
    lemma_lookup_skip(t, key, t.len() as int);
}

/// Updating at the first occurrence `j` replaces exactly that pair.
proof fn lemma_update_at_first_match(
    t: Seq<(Seq<char>, SpecValue)>,
    key: Seq<char>,
    nv: SpecValue,
    j: int,
)
    requires
        0 <= j < t.len(),
        forall|m: int| 0 <= m < j ==> (#[trigger] t[m]).0 != key,
        t[j].0 == key,
    ensures
        spec_table_update(t, key, nv) =~= t.update(j, (key, nv)),
    decreases j,
{
    if j == 0 {
    } else {
        lemma_update_at_first_match(t.drop_first(), key, nv, j - 1);
        assert(spec_table_update(t, key, nv) =~= seq![t[0]] + spec_table_update(
            t.drop_first(),
            key,
            nv,
        ));
        assert(t.drop_first().update(j - 1, (key, nv)) =~= t.update(j, (key, nv)).drop_first());
    }
}

/// Updating a key no pair has appends the new pair.
proof fn lemma_update_append(t: Seq<(Seq<char>, SpecValue)>, key: Seq<char>, nv: SpecValue)
    requires
        forall|m: int| 0 <= m < t.len() ==> (#[trigger] t[m]).0 != key,
    ensures
        spec_table_update(t, key, nv) =~= t.push((key, nv)),
    decreases t.len(),
{
    if t.len() > 0 {
        lemma_update_append(t.drop_first(), key, nv);
        assert(t.drop_first().push((key, nv)) =~= t.push((key, nv)).drop_first());
    }
}

/// Reads the value under `path` starting at segment `i`.
#[verifier::loop_isolation(false)]
fn read_from<'a>(v: &'a Value, path: &FieldPath, i: usize) -> (r: Option<&'a Value>)
    requires
        i <= path@.len(),
    ensures
        match r {
            Some(x) => spec_read(v@, path@.subrange(i as int, path@.len() as int)) == Some(x@),
            None => spec_read(v@, path@.subrange(i as int, path@.len() as int)) is None,
        },
    decreases path@.len() - i,
{
    proof {
        assert(path@.len() == path.segments@.len());
    }
    if i == path.segments.len() {
        proof {
            assert(path@.subrange(i as int, path@.len() as int).len() == 0);
        }
        return Some(v);
    }
    let seg: &String = &path.segments[i];
    proof {
        assert(path@.subrange(i as int, path@.len() as int)[0] == seg@);
        assert(path@.subrange(i as int, path@.len() as int).subrange(
            1,
            path@.subrange(i as int, path@.len() as int).len() as int,
        ) =~= path@.subrange(i + 1, path@.len() as int));
    }
    match v {
        Value::Table(pairs) => {
            proof {
                lemma_table_model(pairs@);
            }
            let mut j: usize = 0;
            while j < pairs.len()
                invariant
                    j <= pairs@.len(),
                    forall|m: int| 0 <= m < j ==> (#[trigger] table_model(pairs@)[m]).0 != seg@,
                decreases pairs@.len() - j,
            {
                if str_eq(pairs[j].0.as_str(), seg.as_str()) {
                    proof {
                        lemma_lookup_found(table_model(pairs@), seg@, j as int);
                    }
                    return read_from(&pairs[j].1, path, i + 1);
                }
                j = j + 1;
            }
            proof {
                lemma_lookup_missing(table_model(pairs@), seg@);
            }
            None
        },
        Value::Array(items) => {
            proof {
                lemma_array_model(items@);
            }
            match parse_decimal_usize(seg.as_str()) {
                Some(n) => {
                    if n < items.len() {
                        read_from(&items[n], path, i + 1)
                    } else {
                        None
                    }
                },
                None => None,
            }
        },
        _ => None,
    }
}

/// Writes `nv` at `path` starting at segment `i`, rebuilding the spine.
#[verifier::loop_isolation(false)]
fn write_from(v: Value, path: &FieldPath, i: usize, nv: Value) -> (r: Result<Value, StoreError>)
    requires
        i <= path@.len(),
    ensures
        match r {
            Ok(w) => spec_write(v@, path@.subrange(i as int, path@.len() as int), nv@) == Some(w@),
            Err(e) => spec_write(v@, path@.subrange(i as int, path@.len() as int), nv@) is None
                && e matches StoreError::ConfigTypeError(_, _),
        },
    decreases path@.len() - i,
{
    proof {
        assert(path@.len() == path.segments@.len());
    }
    if i == path.segments.len() {
        proof {
            assert(path@.subrange(i as int, path@.len() as int).len() == 0);
        }
        return Ok(nv);
    }
    let seg: &String = &path.segments[i];
    proof {
        assert(path@.subrange(i as int, path@.len() as int)[0] == seg@);
        assert(path@.subrange(i as int, path@.len() as int).subrange(
            1,
            path@.subrange(i as int, path@.len() as int).len() as int,
        ) =~= path@.subrange(i + 1, path@.len() as int));
    }
    match v {
        Value::Table(mut pairs) => {
            proof {
                lemma_table_model(pairs@);
            }
            let ghost t0 = table_model(pairs@);
            let ghost p0 = pairs@;
            let mut j: usize = 0;
            while j < pairs.len()
                invariant
                    pairs@ == p0,
                    j <= pairs@.len(),
                    forall|m: int| 0 <= m < j ==> (#[trigger] table_model(pairs@)[m]).0 != seg@,
                decreases pairs@.len() - j,
            {
                if str_eq(pairs[j].0.as_str(), seg.as_str()) {
                    proof {
                        lemma_lookup_found(table_model(pairs@), seg@, j as int);
                    }
                    let pair = pairs.remove(j);
                    match write_from(pair.1, path, i + 1, nv) {
                        Ok(w) => {
                            pairs.insert(j, (pair.0, w));
                            proof {
                                lemma_update_at_first_match(
                                    t0,
                                    seg@,
                                    pairs@[j as int].1@,
                                    j as int,
                                );
                                lemma_table_model(pairs@);
                                assert(table_model(pairs@) =~= spec_table_update(
                                    t0,
                                    seg@,
                                    pairs@[j as int].1@,
                                ));
                            }
                            return Ok(Value::Table(pairs));
                        },
                        Err(e) => {
                            return Err(e);
                        },
                    }
                }
                j = j + 1;
            }
            proof {
                lemma_lookup_missing(table_model(pairs@), seg@);
            }
            let child = Value::Table(Vec::new());
            match write_from(child, path, i + 1, nv) {
                Ok(w) => {
                    let key = clone_string(seg);
                    pairs.push((key, w));
                    proof {
                        lemma_update_append(t0, seg@, pairs@[pairs@.len() - 1].1@);
                        lemma_table_model(pairs@);
                        assert(table_model(pairs@) =~= spec_table_update(
                            t0,
                            seg@,
                            pairs@[pairs@.len() - 1].1@,
                        ));
                    }
                    Ok(Value::Table(pairs))
                },
                Err(e) => Err(e),
            }
        },
        Value::Array(mut items) => {
            proof {
                lemma_array_model(items@);
            }
            let ghost a0 = array_model(items@);
            match parse_decimal_usize(seg.as_str()) {
                Some(n) => {
                    if n < items.len() {
                        let child = items.remove(n);
                        match write_from(child, path, i + 1, nv) {
                            Ok(w) => {
                                items.insert(n, w);
                                proof {
                                    lemma_array_model(items@);
                                    assert(array_model(items@) =~= a0.update(
                                        n as int,
                                        items@[n as int]@,
                                    ));
                                }
                                Ok(Value::Array(items))
                            },
                            Err(e) => Err(e),
                        }
                    } else {
                        Err(
                            StoreError::ConfigTypeError(
                                clone_string(seg),
                                String::from_str("array index in range"),
                            ),
                        )
                    }
                },
                None => Err(
                    StoreError::ConfigTypeError(
                        clone_string(seg),
                        String::from_str("array index"),
                    ),
                ),
            }
        },
        _ => Err(
            StoreError::ConfigTypeError(clone_string(seg), String::from_str("table or array")),
        ),
    }
}

/// Clones one string.
fn clone_string(s: &String) -> (r: String)
    ensures
        r@ == s@,
{
    s.clone()
}

/// Reads the value under a dotted path.  `None` when a key is missing,
/// an array index is absent, malformed or out of range, or a scalar sits
/// on the path before it ends — never an error.
pub fn header_read<'a>(v: &'a Value, path: &FieldPath) -> (r: Option<&'a Value>)
    ensures
        match r {
            Some(x) => spec_read(v@, path@) == Some(x@),
            None => spec_read(v@, path@) is None,
        },
{
    proof {
        assert(path@.subrange(0, path@.len() as int) =~= path@);
    }
    read_from(v, path, 0)
}

/// Places `nv` at `path` inside a copy of `v`, creating intermediate
/// tables under missing keys; fails exactly when the existing structure is
/// incompatible with the path.
pub fn header_write(v: &Value, path: &FieldPath, nv: Value) -> (r: Result<Value, StoreError>)
    ensures
        match r {
            Ok(w) => spec_write(v@, path@, nv@) == Some(w@),
            Err(e) => spec_write(v@, path@, nv@) is None && e matches StoreError::ConfigTypeError(
                _,
                _,
            ),
        },
{
    proof {
        assert(path@.subrange(0, path@.len() as int) =~= path@);
    }
    write_from(v.clone(), path, 0, nv)
}

} // verus!
