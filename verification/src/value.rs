//! Row values. A row is a `Vec<Value>` with one value per schema column;
//! a batch is a `Vec` of rows. Text is carried as UTF-8 bytes and vector
//! elements are 32-bit fixed-precision numbers, so every value is exact.

use vstd::prelude::*;

verus! {

/// One cell of a row.
#[derive(Clone, Debug)]
pub enum Value {
    Int32(i32),
    Utf8(Vec<u8>),
    Vector(Vec<i32>),
}

/// The mathematical shape of a [`Value`]: sequences in place of vectors.
pub enum ValueV {
    Int32(i32),
    Utf8(Seq<u8>),
    Vector(Seq<i32>),
}

impl View for Value {
    type V = ValueV;

    open spec fn view(&self) -> ValueV {
        match self {
            Value::Int32(n) => ValueV::Int32(*n),
            Value::Utf8(s) => ValueV::Utf8(s@),
            Value::Vector(v) => ValueV::Vector(v@),
        }
    }
}

/// A row as a sequence of abstract values.
pub open spec fn row_view(r: Seq<Value>) -> Seq<ValueV> {
    r.map_values(|v: Value| v@)
}

/// A batch as a sequence of abstract rows.
pub open spec fn batch_view(b: Seq<Vec<Value>>) -> Seq<Seq<ValueV>> {
    b.map_values(|r: Vec<Value>| row_view(r@))
}

/// A batch of `total` rows for an `(id, vector)` layout: ids `0 ..`
/// in order, each vector all ones of the given dimension.
#[verifier::loop_isolation(false)]
pub fn ones_batch(total: usize, dim: usize) -> (b: Vec<Vec<Value>>)
    requires
        total <= i32::MAX,
    ensures
        b@.len() == total,
        forall|r: int|
            0 <= r < total ==> row_view((#[trigger] b@[r])@) == seq![
                ValueV::Int32(r as i32),
                ValueV::Vector(Seq::new(dim as nat, |j: int| 1i32)),
            ],
{
    let mut b: Vec<Vec<Value>> = Vec::new();
    let mut r: usize = 0;
    while r < total
        invariant
            r <= total,
            b@.len() == r,
            forall|m: int|
                0 <= m < r ==> row_view((#[trigger] b@[m])@) == seq![
                    ValueV::Int32(m as i32),
                    ValueV::Vector(Seq::new(dim as nat, |j: int| 1i32)),
                ],
        decreases total - r,
    {
        let mut ones: Vec<i32> = Vec::new();
        let mut k: usize = 0;
        while k < dim
            invariant
                k <= dim,
                ones@.len() == k,
                forall|j: int| 0 <= j < k ==> ones@[j] == 1i32,
            decreases dim - k,
        {
            ones.push(1);
            k += 1;
        }
        proof {
            assert(ones@ =~= Seq::new(dim as nat, |j: int| 1i32));
        }
        let mut row: Vec<Value> = Vec::new();
        row.push(Value::Int32(r as i32));
        row.push(Value::Vector(ones));
        proof {
            assert(row_view(row@) =~= seq![
                ValueV::Int32(r as i32),
                ValueV::Vector(Seq::new(dim as nat, |j: int| 1i32)),
            ]);
        }
        b.push(row);
        r += 1;
    }
    b
}

/// Structural equality on values, byte for byte and element for element.
pub fn value_eq(a: &Value, b: &Value) -> (r: bool)
    ensures
        r <==> a@ == b@,
{
    match (a, b) {
        (Value::Int32(x), Value::Int32(y)) => *x == *y,
        (Value::Utf8(x), Value::Utf8(y)) => bytes_eq(x, y),
        (Value::Vector(x), Value::Vector(y)) => i32s_eq(x, y),
        _ => {
            proof {
                assert(a@ != b@);
            }
            false
        },
    }
}

/// Byte-string equality, element for element.
pub fn bytes_eq(a: &Vec<u8>, b: &Vec<u8>) -> (r: bool)
    ensures
        r <==> a@ == b@,
{
    if a.len() != b.len() {
        proof {
            assert(a@ != b@);
        }
        return false;
    }
    let n = a.len();
    let mut i: usize = 0;
    while i < n
        invariant
            n == a.len() == b.len(),
            i <= n,
            forall|j: int| 0 <= j < i ==> a@[j] == b@[j],
        decreases n - i,
    {
        if a[i] != b[i] {
            return false;
        }
        i += 1;
    }
    proof {
        assert(a@ =~= b@);
    }
    true
}

/// Element-wise equality of fixed-precision vectors.
pub fn i32s_eq(a: &Vec<i32>, b: &Vec<i32>) -> (r: bool)
    ensures
        r <==> a@ == b@,
{
    if a.len() != b.len() {
        proof {
            assert(a@ != b@);
        }
        return false;
    }
    let n = a.len();
    let mut i: usize = 0;
    while i < n
        invariant
            n == a.len() == b.len(),
            i <= n,
            forall|j: int| 0 <= j < i ==> a@[j] == b@[j],
        decreases n - i,
    {
        if a[i] != b[i] {
            return false;
        }
        i += 1;
    }
    proof {
        assert(a@ =~= b@);
    }
    true
}

} // verus!
