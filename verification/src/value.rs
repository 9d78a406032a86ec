use vstd::prelude::*;
use crate::strutil::str_eq;

verus! {

/// A structured header value: a scalar, an array, or a nested table.
///
/// A table keeps its pairs in insertion order; a lookup takes the first
/// pair with the asked-for key, so earlier pairs shadow later ones with
/// the same key.
#[derive(Debug)]
pub enum Value {
    Text(String),
    Boolean(bool),
    Integer(i64),
    Array(Vec<Value>),
    Table(Vec<(String, Value)>),
}

/// The mathematical model of a `Value`: strings become character
/// sequences, integers unbounded integers, arrays and tables sequences of
/// models.
#[verifier::ext_equal]
pub enum SpecValue {
    Text(Seq<char>),
    Boolean(bool),
    Integer(int),
    Array(Seq<SpecValue>),
    Table(Seq<(Seq<char>, SpecValue)>),
}

/// The model of one value.
pub open spec fn value_model(v: Value) -> SpecValue
    decreases v,
{
    match v {
        Value::Text(s) => SpecValue::Text(s@),
        Value::Boolean(b) => SpecValue::Boolean(b),
        Value::Integer(i) => SpecValue::Integer(i as int),
        Value::Array(items) => SpecValue::Array(array_model(items@)),
        Value::Table(pairs) => SpecValue::Table(table_model(pairs@)),
    }
}

/// The models of a sequence of array elements, in order.
pub open spec fn array_model(items: Seq<Value>) -> Seq<SpecValue>
    decreases items,
{
    if items.len() == 0 {
        Seq::empty()
    } else {
        seq![value_model(items[0])] + array_model(items.subrange(1, items.len() as int))
    }
}

/// The models of a sequence of table pairs, in order.
pub open spec fn table_model(pairs: Seq<(String, Value)>) -> Seq<(Seq<char>, SpecValue)>
    decreases pairs,
{
    if pairs.len() == 0 {
        Seq::empty()
    } else {
        seq![(pairs[0].0@, value_model(pairs[0].1))] + table_model(
            pairs.subrange(1, pairs.len() as int),
        )
    }
}

impl View for Value {
    type V = SpecValue;

    open spec fn view(&self) -> SpecValue {
        value_model(*self)
    }
}

/// An array's model has one model per element, in the same order.
pub proof fn lemma_array_model(items: Seq<Value>)
    ensures
        array_model(items).len() == items.len(),
        forall|i: int|
            0 <= i < items.len() ==> #[trigger] array_model(items)[i] == value_model(items[i]),
    decreases items.len(),
{
    if items.len() > 0 {
        let tail = items.subrange(1, items.len() as int);
        lemma_array_model(tail);
        assert forall|i: int|
            0 <= i < items.len() implies #[trigger] array_model(items)[i] == value_model(
            items[i],
        ) by {
            if i > 0 {
                assert(array_model(items)[i] == array_model(tail)[i - 1]);
                assert(tail[i - 1] == items[i]);
            }
        };
    }
}

/// A table's model has one (key view, value model) pair per pair, in the
/// same order.
pub proof fn lemma_table_model(pairs: Seq<(String, Value)>)
    ensures
        table_model(pairs).len() == pairs.len(),
        forall|i: int|
            0 <= i < pairs.len() ==> #[trigger] table_model(pairs)[i] == (
            pairs[i].0@,
            value_model(pairs[i].1),
            ),
    decreases pairs.len(),
{
    if pairs.len() > 0 {
        let tail = pairs.subrange(1, pairs.len() as int);
        lemma_table_model(tail);
        assert forall|i: int|
            0 <= i < pairs.len() implies #[trigger] table_model(pairs)[i] == (
        pairs[i].0@,
        value_model(pairs[i].1),
        ) by {
            if i > 0 {
                assert(table_model(pairs)[i] == table_model(tail)[i - 1]);
                assert(tail[i - 1] == pairs[i]);
            }
        };
    }
}

/// Deep copy of one value; the copy has the same model.
#[verifier::loop_isolation(false)]
fn clone_value(v: &Value) -> (r: Value)
    ensures
        value_model(r) == value_model(*v),
    decreases *v,
{
    match v {
        Value::Text(s) => Value::Text(s.clone()),
        Value::Boolean(b) => Value::Boolean(*b),
        Value::Integer(i) => Value::Integer(*i),
        Value::Array(items) => {
            let mut out: Vec<Value> = Vec::new();
            let mut idx: usize = 0;
            while idx < items.len()
                invariant
                    idx <= items.len(),
                    out@.len() == idx,
                    forall|j: int|
                        0 <= j < idx ==> value_model(#[trigger] out@[j]) == value_model(items@[j]),
                decreases items.len() - idx,
            {
                let c = clone_value(&items[idx]);
                out.push(c);
                idx = idx + 1;
            }
            proof {
                lemma_array_model(out@);
                lemma_array_model(items@);
                assert(array_model(out@) =~= array_model(items@));
            }
            Value::Array(out)
        },
        Value::Table(pairs) => {
            let mut out: Vec<(String, Value)> = Vec::new();
            let mut idx: usize = 0;
            while idx < pairs.len()
                invariant
                    idx <= pairs.len(),
                    out@.len() == idx,
                    forall|j: int|
                        0 <= j < idx ==> (#[trigger] out@[j]).0@ == pairs@[j].0@ && value_model(
                            out@[j].1,
                        ) == value_model(pairs@[j].1),
                decreases pairs.len() - idx,
            {
                let key = pairs[idx].0.clone();
                let val = clone_value(&pairs[idx].1);
                out.push((key, val));
                idx = idx + 1;
            }
            proof {
                lemma_table_model(out@);
                lemma_table_model(pairs@);
                assert(table_model(out@) =~= table_model(pairs@));
            }
            Value::Table(out)
        },
    }
}

impl Clone for Value {
    /// Deep copy; the copy has the same model as the original.
    fn clone(&self) -> (r: Self)
        ensures
            r@ == self@,
    {
        clone_value(self)
    }
}

/// Structural equality of two values, decided executably and reflected as
/// equality of the models.
#[verifier::loop_isolation(false)]
pub fn value_eq(a: &Value, b: &Value) -> (r: bool)
    ensures
        r == (a@ == b@),
    decreases *a,
{
    match a {
        Value::Text(x) => match b {
            Value::Text(y) => str_eq(x.as_str(), y.as_str()),
            _ => false,
        },
        Value::Boolean(x) => match b {
            Value::Boolean(y) => *x == *y,
            _ => false,
        },
        Value::Integer(x) => match b {
            Value::Integer(y) => *x == *y,
            _ => false,
        },
        Value::Array(x) => match b {
            Value::Array(y) => {
            proof {
                lemma_array_model(x@);
                lemma_array_model(y@);
            }
            if x.len() != y.len() {
                return false;
            }
            let mut idx: usize = 0;
            while idx < x.len()
                invariant
                    x@.len() == y@.len(),
                    idx <= x@.len(),
                    array_model(x@).len() == x@.len(),
                    array_model(y@).len() == y@.len(),
                    forall|j: int|
                        0 <= j < x@.len() ==> #[trigger] array_model(x@)[j] == value_model(x@[j]),
                    forall|j: int|
                        0 <= j < y@.len() ==> #[trigger] array_model(y@)[j] == value_model(y@[j]),
                    forall|j: int|
                        0 <= j < idx ==> value_model(#[trigger] x@[j]) == value_model(y@[j]),
                decreases x@.len() - idx,
            {
                if !value_eq(&x[idx], &y[idx]) {
                    proof {
                        assert(array_model(x@)[idx as int] != array_model(y@)[idx as int]);
                    }
                    return false;
                }
                idx = idx + 1;
            }
            proof {
                assert(array_model(x@) =~= array_model(y@));
            }
            true
            },
            _ => false,
        },
        Value::Table(x) => match b {
            Value::Table(y) => {
            proof {
                lemma_table_model(x@);
                lemma_table_model(y@);
            }
            if x.len() != y.len() {
                return false;
            }
            let mut idx: usize = 0;
            while idx < x.len()
                invariant
                    x@.len() == y@.len(),
                    idx <= x@.len(),
                    table_model(x@).len() == x@.len(),
                    table_model(y@).len() == y@.len(),
                    forall|j: int|
                        0 <= j < x@.len() ==> #[trigger] table_model(x@)[j] == (
                        x@[j].0@,
                        value_model(x@[j].1),
                        ),
                    forall|j: int|
                        0 <= j < y@.len() ==> #[trigger] table_model(y@)[j] == (
                        y@[j].0@,
                        value_model(y@[j].1),
                        ),
                    forall|j: int|
                        0 <= j < idx ==> (#[trigger] x@[j]).0@ == y@[j].0@ && value_model(x@[j].1)
                            == value_model(y@[j].1),
                decreases x@.len() - idx,
            {
                if !str_eq(x[idx].0.as_str(), y[idx].0.as_str()) {
                    proof {
                        assert(table_model(x@)[idx as int].0 != table_model(y@)[idx as int].0);
                    }
                    return false;
                }
                if !value_eq(&x[idx].1, &y[idx].1) {
                    proof {
                        assert(table_model(x@)[idx as int].1 != table_model(y@)[idx as int].1);
                    }
                    return false;
                }
                idx = idx + 1;
            }
            proof {
                assert(table_model(x@) =~= table_model(y@));
            }
            true
            },
            _ => false,
        },
    }
}

} // verus!
