//! Tensors of `candle_core`, and what the operations that the model uses do to them.
//!
//! A tensor is described by its dimensions, the type of its elements, the device that
//! it lies on, and its elements by position. An element stands as an integer: one of a
//! type of integers as its value, and a floating point number as its bits, read as an
//! unsigned number, with one number for every not-a-number. None of the operations here
//! writes to a tensor in place.
use candle_core::{DType, Device, Tensor};
use vstd::prelude::*;

use super::ModelError;

verus! {

#[verifier::external_type_specification]
#[verifier::external_body]
pub struct ExTensor(Tensor);

#[verifier::external_type_specification]
#[verifier::external_body]
pub struct ExTensorError(candle_core::Error);

#[verifier::external_type_specification]
#[verifier::external_body]
pub struct ExDevice(Device);

#[verifier::external_type_specification]
#[verifier::external_body]
pub struct ExDType(DType);

/// The dimensions of a tensor.
pub uninterp spec fn dims(t: Tensor) -> Seq<usize>;

/// The elements of a tensor, by their positions.
pub uninterp spec fn entries(t: Tensor) -> Map<Seq<int>, int>;

/// The types of elements.
#[derive(Clone, Copy, Debug, PartialEq, Eq, Structural)]
pub enum ElementType {
    U8,
    U32,
    I16,
    I32,
    I64,
    BF16,
    F16,
    F32,
    F64,
    F8E4M3,
    F6E2M3,
    F6E3M2,
    F4,
    F8E8M0,
}

/// The type of elements that a `DType` stands for.
pub uninterp spec fn kind(dtype: DType) -> ElementType;

/// The type of a tensor's elements.
pub uninterp spec fn element_type(t: Tensor) -> ElementType;

/// The device that a tensor lies on.
pub uninterp spec fn device_of(t: Tensor) -> Device;

/// Whether a device is the processor itself.
pub uninterp spec fn on_cpu(device: Device) -> bool;

/// An element turned from one type into another.
pub uninterp spec fn converted(from: ElementType, to: ElementType, element: int) -> int;

/// The product of two floating point numbers of a type.
pub uninterp spec fn product(of: ElementType, a: int, b: int) -> int;

/// The sum of two floating point numbers of a type.
pub uninterp spec fn sum(of: ElementType, a: int, b: int) -> int;

/// The difference of two floating point numbers of a type.
pub uninterp spec fn difference(of: ElementType, a: int, b: int) -> int;

/// Whether the elements of a type are floating point numbers.
pub open spec fn floating(of: ElementType) -> bool {
    !(of is U8 || of is U32 || of is I16 || of is I32 || of is I64)
}

/// Whether an element can be of a type: integers have their bounds.
pub open spec fn holds(of: ElementType, element: int) -> bool {
    match of {
        ElementType::U8 => 0 <= element <= u8::MAX,
        ElementType::U32 => 0 <= element <= u32::MAX,
        ElementType::I16 => i16::MIN <= element <= i16::MAX,
        ElementType::I32 => i32::MIN <= element <= i32::MAX,
        ElementType::I64 => i64::MIN <= element <= i64::MAX,
        _ => true,
    }
}

/// The product of two elements of a type.
pub open spec fn times(of: ElementType, a: int, b: int) -> int {
    if floating(of) {
        product(of, a, b)
    } else {
        a * b
    }
}

/// The sum of two elements of a type.
pub open spec fn plus(of: ElementType, a: int, b: int) -> int {
    if floating(of) {
        sum(of, a, b)
    } else {
        a + b
    }
}

/// The difference of two elements of a type.
pub open spec fn minus(of: ElementType, a: int, b: int) -> int {
    if floating(of) {
        difference(of, a, b)
    } else {
        a - b
    }
}

/// Whether the processor has elements of a type: it has none of less than eight bits, and
/// none that are only an exponent.
pub open spec fn storable(of: ElementType) -> bool {
    !(of is F6E2M3 || of is F6E3M2 || of is F4 || of is F8E8M0)
}

/// Whether turning elements of one type into another gives the same on every machine:
/// from double to half precision some round once, and some twice.
pub open spec fn convertible(from: ElementType, to: ElementType) -> bool {
    !(from is F64 && to is F16)
}

/// Whether a tensor lies on the processor, with elements of a type that it has.
pub open spec fn workable(t: Tensor) -> bool {
    on_cpu(device_of(t)) && storable(element_type(t))
}

/// Whether no dimension is of size zero, so that there is an element.
pub open spec fn solid(d: Seq<usize>) -> bool {
    forall|k: int| 0 <= k < d.len() ==> 0 < #[trigger] d[k]
}

/// Whether `i` is a position in a tensor of these dimensions.
pub open spec fn inside(d: Seq<usize>, i: Seq<int>) -> bool {
    i.len() == d.len() && forall|k: int| 0 <= k < d.len() ==> 0 <= #[trigger] i[k] < d[k]
}

/// The number of elements, where a dimension of size zero counts as one.
pub open spec fn room(d: Seq<usize>) -> nat
    decreases d.len(),
{
    if d.len() == 0 {
        1
    } else {
        room(d.drop_last()) * (if d.last() == 0 {
            1
        } else {
            d.last() as nat
        })
    }
}

/// Whether a tensor of these dimensions can be addressed, with elements of eight bytes.
pub open spec fn fits(d: Seq<usize>) -> bool {
    room(d) * 8 <= isize::MAX
}

/// The number of elements.
pub open spec fn count(d: Seq<usize>) -> nat {
    if solid(d) {
        room(d)
    } else {
        0
    }
}

/// The place of a position in row-major order.
pub open spec fn flat(d: Seq<usize>, i: Seq<int>) -> int
    decreases d.len(),
{
    if d.len() == 0 {
        0
    } else {
        flat(d.drop_last(), i.drop_last()) * d.last() + i.last()
    }
}

/// Two tensors with elements of one type on one device.
pub open spec fn alike(a: Tensor, b: Tensor) -> bool {
    element_type(a) == element_type(b) && device_of(a) == device_of(b)
}

/// Whether there is a part from `start` on, `len` long, along dimension `dim`.
pub open spec fn has_part(d: Seq<usize>, dim: usize, start: usize, len: usize) -> bool {
    dim < d.len() && start + len <= d[dim as int]
}

/// Whether there are dimensions `a` and `b`.
pub open spec fn has_both(d: Seq<usize>, a: usize, b: usize) -> bool {
    a < d.len() && b < d.len()
}

/// `t` is the part of `x` from `start` on, `len` long, along dimension `dim`.
pub open spec fn narrowed(x: Tensor, dim: int, start: int, len: usize, t: Tensor) -> bool {
    &&& alike(t, x)
    &&& dims(t) == dims(x).update(dim, len)
    &&& forall|i: Seq<int>|
        inside(dims(t), i) ==> #[trigger] entries(t)[i] == entries(x)[i.update(
            dim,
            i[dim] + start,
        )]
}

/// `t` is `x` with `src` written over it from `start` on along dimension `dim`.
pub open spec fn scattered(x: Tensor, src: Tensor, dim: int, start: int, t: Tensor) -> bool {
    &&& alike(t, x)
    &&& dims(t) == dims(x)
    &&& forall|i: Seq<int>|
        inside(dims(t), i) ==> #[trigger] entries(t)[i] == if start <= i[dim] < start + dims(
            src,
        )[dim] {
            entries(src)[i.update(dim, i[dim] - start)]
        } else {
            entries(x)[i]
        }
}

/// Whether `src` can be written over `x` from `start` on along dimension `dim`.
pub open spec fn scatters(x: Tensor, src: Tensor, dim: int, start: int) -> bool {
    &&& 0 <= dim < dims(x).len()
    &&& dims(src).len() == dims(x).len()
    &&& dims(src)[dim] + start <= dims(x)[dim]
    &&& forall|k: int| 0 <= k < dims(x).len() && k != dim ==> #[trigger] dims(src)[k] == dims(x)[k]
}

/// Whether the processor can write `src` over `x`.
pub open spec fn can_scatter(x: Tensor, src: Tensor, dim: int, start: int) -> bool {
    &&& workable(x)
    &&& on_cpu(device_of(src))
    &&& element_type(src) == element_type(x)
    &&& scatters(x, src, dim, start)
}

/// The position in the repeated tensor `x` that a position in its repetition comes from.
pub open spec fn wrapped(d: Seq<usize>, i: Seq<int>) -> Seq<int> {
    Seq::new(d.len(), |k: int| i[k] % (d[k] as int))
}

/// `t` is `x`, repeated `times[k]` times along each dimension `k`.
pub open spec fn repeated(x: Tensor, times: Seq<usize>, t: Tensor) -> bool {
    &&& alike(t, x)
    &&& dims(t).len() == dims(x).len()
    &&& forall|k: int|
        0 <= k < dims(x).len() ==> #[trigger] dims(t)[k] == dims(x)[k] * times[k]
    &&& forall|i: Seq<int>|
        inside(dims(t), i) ==> #[trigger] entries(t)[i] == entries(x)[wrapped(dims(x), i)]
}

/// `t` is `x` with a dimension of size one put in before dimension `dim`.
pub open spec fn unsqueezed(x: Tensor, dim: int, t: Tensor) -> bool {
    &&& alike(t, x)
    &&& dims(t) == dims(x).insert(dim, 1)
    &&& forall|i: Seq<int>|
        inside(dims(t), i) ==> #[trigger] entries(t)[i] == entries(x)[i.remove(dim)]
}

/// `t` is `x` without its dimension `dim`, which is of size one.
pub open spec fn squeezed(x: Tensor, dim: int, t: Tensor) -> bool {
    &&& alike(t, x)
    &&& dims(t) == dims(x).remove(dim)
    &&& forall|i: Seq<int>|
        inside(dims(t), i) ==> #[trigger] entries(t)[i] == entries(x)[i.insert(dim, 0)]
}

/// `t` has the elements of `x` in the same row-major order.
pub open spec fn reshaped(x: Tensor, shape: Seq<usize>, t: Tensor) -> bool {
    &&& alike(t, x)
    &&& dims(t) == shape
    &&& forall|i: Seq<int>, j: Seq<int>|
        inside(shape, i) && inside(dims(x), j) && flat(shape, i) == flat(dims(x), j)
            ==> #[trigger] entries(t)[i] == #[trigger] entries(x)[j]
}

/// A sequence with two of its items exchanged.
pub open spec fn exchanged<A>(s: Seq<A>, a: int, b: int) -> Seq<A> {
    s.update(a, s[b]).update(b, s[a])
}

/// `t` is `x` with two dimensions exchanged.
pub open spec fn transposed(x: Tensor, a: int, b: int, t: Tensor) -> bool {
    &&& alike(t, x)
    &&& dims(t) == exchanged(dims(x), a, b)
    &&& forall|i: Seq<int>|
        inside(dims(t), i) ==> #[trigger] entries(t)[i] == entries(x)[exchanged(i, a, b)]
}

/// `t` holds what `x` holds.
pub open spec fn same_tensor(x: Tensor, t: Tensor) -> bool {
    &&& alike(t, x)
    &&& dims(t) == dims(x)
    &&& forall|i: Seq<int>|
        inside(dims(t), i) ==> #[trigger] entries(t)[i] == entries(x)[i]
}

/// `t` is `a` followed by `b` along dimension `dim`.
pub open spec fn concatenated(a: Tensor, b: Tensor, dim: int, t: Tensor) -> bool {
    &&& alike(t, a)
    &&& dims(t).len() == dims(a).len()
    &&& dims(t)[dim] == dims(a)[dim] + dims(b)[dim]
    &&& forall|k: int|
        0 <= k < dims(a).len() && k != dim ==> #[trigger] dims(t)[k] == dims(a)[k]
    &&& forall|i: Seq<int>|
        inside(dims(t), i) ==> #[trigger] entries(t)[i] == if i[dim] < dims(a)[dim] {
            entries(a)[i]
        } else {
            entries(b)[i.update(dim, i[dim] - dims(a)[dim])]
        }
}

/// Whether `b` can follow `a` along dimension `dim`.
pub open spec fn joinable(a: Seq<usize>, b: Seq<usize>, dim: int) -> bool {
    &&& 0 <= dim < a.len()
    &&& a.len() == b.len()
    &&& forall|k: int| 0 <= k < a.len() && k != dim ==> #[trigger] b[k] == a[k]
}

/// Whether the processor can put `b` after `a`.
pub open spec fn can_join(a: Tensor, b: Tensor, dim: int) -> bool {
    &&& workable(a)
    &&& on_cpu(device_of(b))
    &&& element_type(b) == element_type(a)
    &&& joinable(dims(a), dims(b), dim)
}

/// Whether the processor can turn the elements of a tensor into another type.
pub open spec fn can_convert(x: Tensor, to: ElementType) -> bool {
    workable(x) && storable(to)
}

/// Size `k` of a tensor of dimensions `d` when it is spread over `n` dimensions: the
/// missing first ones are of size one.
pub open spec fn spread(d: Seq<usize>, n: int, k: int) -> usize {
    if k < n - d.len() {
        1
    } else {
        d[k - (n - d.len())]
    }
}

/// Whether two tensors go together position by position, with `d` as the dimensions of
/// the result: where the sizes differ one of them is one.
pub open spec fn go_together(a: Seq<usize>, b: Seq<usize>, d: Seq<usize>) -> bool {
    let n = d.len() as int;
    &&& n == if a.len() < b.len() {
        b.len()
    } else {
        a.len()
    }
    &&& forall|k: int|
        0 <= k < n ==> #[trigger] d[k] == if spread(a, n, k) == 1 {
            spread(b, n, k)
        } else {
            spread(a, n, k)
        } && (spread(a, n, k) == spread(b, n, k) || spread(a, n, k) == 1 || spread(b, n, k)
            == 1)
}

/// Whether the processor can combine the elements of two tensors that go together.
pub open spec fn can_combine(a: Tensor, b: Tensor) -> bool {
    &&& workable(a)
    &&& on_cpu(device_of(b))
    &&& element_type(b) == element_type(a)
    &&& exists|d: Seq<usize>| #[trigger] go_together(dims(a), dims(b), d)
}

/// Whether the processor can compare two tensors of numbers element by element.
pub open spec fn can_compare(a: Tensor, b: Tensor) -> bool {
    on_cpu(device_of(a)) && on_cpu(device_of(b)) && dims(a) == dims(b)
}

/// The position in a tensor of dimensions `d` that goes with position `i` of a result.
pub open spec fn opposite(d: Seq<usize>, i: Seq<int>) -> Seq<int> {
    Seq::new(
        d.len(),
        |k: int|
            if d[k] == 1 {
                0
            } else {
                i[k + (i.len() - d.len())]
            },
    )
}

pub proof fn lemma_room_positive(d: Seq<usize>)
    ensures
        room(d) >= 1,
    decreases d.len(),
{
    if d.len() > 0 {
        lemma_room_positive(d.drop_last());
        let last: int = if d.last() == 0 {
            1
        } else {
            d.last() as int
        };
        assert(room(d.drop_last()) * last >= 1) by (nonlinear_arith)
            requires
                room(d.drop_last()) >= 1,
                last >= 1,
        ;
    }
}

/// A tensor that is no larger in any dimension takes no more room.
pub proof fn lemma_room_monotone(a: Seq<usize>, b: Seq<usize>)
    requires
        a.len() == b.len(),
        forall|k: int| 0 <= k < a.len() ==> #[trigger] a[k] <= b[k],
    ensures
        room(a) <= room(b),
    decreases a.len(),
{
    if a.len() > 0 {
        let (x, y) = (room(a.drop_last()), room(b.drop_last()));
        let p: nat = if a.last() == 0 {
            1
        } else {
            a.last() as nat
        };
        let q: nat = if b.last() == 0 {
            1
        } else {
            b.last() as nat
        };
        assert forall|k: int| 0 <= k < a.drop_last().len() implies #[trigger] a.drop_last()[k]
            <= b.drop_last()[k] by {
            assert(a[k] <= b[k]);
        }
        lemma_room_monotone(a.drop_last(), b.drop_last());
        assert(a[a.len() - 1] <= b[a.len() - 1]);
        assert(x * p <= y * q) by (nonlinear_arith)
            requires
                x <= y,
                p <= q,
        ;
    }
}

/// The first dimensions take no more room than all of them.
proof fn lemma_room_of_prefix(d: Seq<usize>, n: int)
    requires
        0 <= n <= d.len(),
    ensures
        room(d.take(n)) <= room(d),
    decreases d.len() - n,
{
    if n < d.len() {
        lemma_room_of_prefix(d, n + 1);
        let longer = d.take(n + 1);
        assert(longer.drop_last() =~= d.take(n));
        let last: nat = if longer.last() == 0 {
            1
        } else {
            longer.last() as nat
        };
        assert(room(d.take(n)) <= room(d.take(n)) * last) by (nonlinear_arith)
            requires
                last >= 1,
        ;
    } else {
        assert(d.take(n) =~= d);
    }
}

pub proof fn lemma_flat2(d: Seq<usize>, i: Seq<int>)
    requires
        d.len() == 2,
        i.len() == 2,
    ensures
        flat(d, i) == i[0] * d[1] + i[1],
{
    reveal_with_fuel(flat, 3);
    assert(0 * d[0] == 0) by (nonlinear_arith);
}

pub proof fn lemma_flat3(d: Seq<usize>, i: Seq<int>)
    requires
        d.len() == 3,
        i.len() == 3,
    ensures
        flat(d, i) == (i[0] * d[1] + i[1]) * d[2] + i[2],
{
    lemma_flat2(d.drop_last(), i.drop_last());
}

pub proof fn lemma_flat4(d: Seq<usize>, i: Seq<int>)
    requires
        d.len() == 4,
        i.len() == 4,
    ensures
        flat(d, i) == ((i[0] * d[1] + i[1]) * d[2] + i[2]) * d[3] + i[3],
{
    lemma_flat3(d.drop_last(), i.drop_last());
}

pub proof fn lemma_flat5(d: Seq<usize>, i: Seq<int>)
    requires
        d.len() == 5,
        i.len() == 5,
    ensures
        flat(d, i) == (((i[0] * d[1] + i[1]) * d[2] + i[2]) * d[3] + i[3]) * d[4] + i[4],
{
    lemma_flat4(d.drop_last(), i.drop_last());
}

/// Whether a tensor of these dimensions can be addressed, with elements of eight bytes.
pub fn addressable(shape: &Vec<usize>) -> (r: bool)
    ensures
        r == fits(shape@),
{
    let mut total: u128 = 1;
    let limit: u128 = isize::MAX as u128;
    assert(shape@.take(0) =~= seq![]);
    for k in 0..shape.len()
        invariant
            total == room(shape@.take(k as int)),
            total * 8 <= limit,
            limit == isize::MAX,
    {
        let size: u128 = if shape[k] == 0 {
            1
        } else {
            shape[k] as u128
        };
        proof {
            let longer = shape@.take(k + 1);
            assert(longer.drop_last() =~= shape@.take(k as int));
            lemma_room_of_prefix(shape@, k + 1);
            assert(total * size <= 0x8000_0000_0000_0000 * 0x1_0000_0000_0000_0000)
                by (nonlinear_arith)
                requires
                    0 <= total <= 0x8000_0000_0000_0000,
                    0 <= size <= 0x1_0000_0000_0000_0000,
            ;
        }
        total = total * size;
        if total > limit / 8 {
            return false;
        }
    }
    assert(shape@.take(shape@.len() as int) =~= shape@);
    true
}

/// Whether no dimension is of size zero.
pub(crate) fn is_solid(shape: &Vec<usize>) -> (r: bool)
    ensures
        r == solid(shape@),
{
    for k in 0..shape.len()
        invariant
            forall|j: int| 0 <= j < k ==> 0 < #[trigger] shape@[j],
    {
        if shape[k] == 0 {
            assert(!(0 < shape@[k as int]));
            return false;
        }
    }
    true
}

/// The number of elements.
pub(crate) fn element_count(shape: &Vec<usize>) -> (n: usize)
    requires
        fits(shape@),
    ensures
        n == count(shape@),
{
    if !is_solid(shape) {
        return 0;
    }
    let mut total: usize = 1;
    assert(shape@.take(0) =~= seq![]);
    for k in 0..shape.len()
        invariant
            fits(shape@),
            solid(shape@),
            total == room(shape@.take(k as int)),
    {
        proof {
            let longer = shape@.take(k + 1);
            assert(longer.drop_last() =~= shape@.take(k as int));
            lemma_room_of_prefix(shape@, k + 1);
            assert(0 < shape@[k as int]);
        }
        total = total * shape[k];
    }
    assert(shape@.take(shape@.len() as int) =~= shape@);
    total
}

/// Whether the elements of a type are floating point numbers.
pub(crate) fn is_float(of: ElementType) -> (r: bool)
    ensures
        r == floating(of),
{
    !matches!(
        of,
        ElementType::U8 | ElementType::U32 | ElementType::I16 | ElementType::I32 | ElementType::I64
    )
}

/// The type of a tensor's elements.
pub(crate) fn tensor_kind(t: &Tensor) -> (r: ElementType)
    ensures
        r == element_type(*t),
{
    kind_of(tensor_dtype(t))
}

/// Whether a device is the processor, and the processor has elements of a type.
pub fn is_usable(device: &Device, dtype: DType) -> (r: bool)
    ensures
        r == (on_cpu(*device) && storable(kind(dtype))),
{
    is_cpu(device) && !matches!(
        kind_of(dtype),
        ElementType::F6E2M3 | ElementType::F6E3M2 | ElementType::F4 | ElementType::F8E8M0
    )
}

/// Whether a tensor lies on the processor, with elements of a type that it has.
pub fn is_workable(t: &Tensor) -> (r: bool)
    ensures
        r == workable(*t),
{
    is_usable(tensor_device(t), tensor_dtype(t))
}

/// A tensor without elements, of the same type and on the same device as another.
pub(crate) fn blank(shape: Vec<usize>, like: &Tensor) -> (r: Result<Tensor, ModelError>)
    requires
        fits(shape@),
        !solid(shape@),
    ensures
        workable(*like) ==> r is Ok,
        r matches Err(e) ==> e is Backend,
        r matches Ok(t) ==> dims(t) == shape@ && alike(t, *like),
{
    let device = tensor_device(like).clone();
    match zeros(shape, tensor_dtype(like), &device) {
        Ok(t) => Ok(t),
        Err(e) => Err(ModelError::Backend(e)),
    }
}

/// A tensor without elements has no positions.
pub proof fn lemma_blank(d: Seq<usize>, i: Seq<int>)
    requires
        !solid(d),
    ensures
        !inside(d, i),
{
    let k = choose|k: int| 0 <= k < d.len() && !(0 < #[trigger] d[k]);
    if inside(d, i) {
        assert(0 <= i[k] < d[k]);
    }
}

/// `Tensor::clone`: another handle on the same tensor.
pub assume_specification[ <Tensor as Clone>::clone ](t: &Tensor) -> (r: Tensor)
    ensures
        r == *t,
;

/// `Device::clone`: another handle on the same device.
pub assume_specification[ <Device as Clone>::clone ](d: &Device) -> (r: Device)
    ensures
        r == *d,
;

/// `Tensor::dims`: the dimensions.
#[verifier::external_body]
pub(crate) fn tensor_dims(t: &Tensor) -> (r: Vec<usize>)
    ensures
        r@ == dims(*t),
{
    t.dims().to_vec()
}

/// `Tensor::dtype`: the type of the elements.
#[verifier::external_body]
pub(crate) fn tensor_dtype(t: &Tensor) -> (r: DType)
    ensures
        kind(r) == element_type(*t),
{
    t.dtype()
}

/// A `DType`: the type of elements that it stands for, variant by variant.
#[verifier::external_body]
pub(crate) fn kind_of(dtype: DType) -> (r: ElementType)
    ensures
        r == kind(dtype),
{
    match dtype {
        DType::U8 => ElementType::U8,
        DType::U32 => ElementType::U32,
        DType::I16 => ElementType::I16,
        DType::I32 => ElementType::I32,
        DType::I64 => ElementType::I64,
        DType::BF16 => ElementType::BF16,
        DType::F16 => ElementType::F16,
        DType::F32 => ElementType::F32,
        DType::F64 => ElementType::F64,
        DType::F8E4M3 => ElementType::F8E4M3,
        DType::F6E2M3 => ElementType::F6E2M3, DType::F6E3M2 => ElementType::F6E3M2,
        DType::F4 => ElementType::F4, DType::F8E8M0 => ElementType::F8E8M0,
    }
}

/// `Device::is_cpu`: whether a device is the processor itself.
#[verifier::external_body]
pub(crate) fn is_cpu(device: &Device) -> (r: bool)
    ensures
        r == on_cpu(*device),
{
    device.is_cpu()
}

/// `Tensor::device`: the device that the tensor lies on.
#[verifier::external_body]
pub(crate) fn tensor_device(t: &Tensor) -> (r: &Device)
    ensures
        *r == device_of(*t),
{
    t.device()
}

/// `Tensor::zeros`: a tensor in which every element is zero. On the processor it exists
/// for every type of elements that the processor has.
#[verifier::external_body]
pub(crate) fn zeros(shape: Vec<usize>, dtype: DType, device: &Device) -> (r: Result<
    Tensor,
    candle_core::Error,
>)
    requires
        fits(shape@),
    ensures
        on_cpu(*device) ==> (r is Ok <==> storable(kind(dtype))),
        r matches Ok(t) ==> dims(t) == shape@,
        r matches Ok(t) ==> element_type(t) == kind(dtype),
        r matches Ok(t) ==> device_of(t) == *device,
        r matches Ok(t) ==> forall|i: Seq<int>|
            inside(shape@, i) ==> #[trigger] entries(t)[i] == 0,
{
    Tensor::zeros(shape, dtype, device)
}

/// `Tensor::narrow`: the part of a tensor along one dimension, if there is such a part.
#[verifier::external_body]
pub(crate) fn narrow(x: &Tensor, dim: usize, start: usize, len: usize) -> (r: Result<
    Tensor,
    candle_core::Error,
>)
    requires
        start + len <= usize::MAX,
    ensures
        r is Ok <==> has_part(dims(*x), dim, start, len),
        r matches Ok(t) ==> narrowed(*x, dim as int, start as int, len, t),
{
    x.narrow(dim, start, len)
}

/// `Tensor::slice_scatter`: a copy of `x` with `src` written over it. On the processor it
/// succeeds where the two fit. Tensors without elements are left out: a copy of one may
/// start past the end of its storage.
#[verifier::external_body]
pub(crate) fn slice_scatter(x: &Tensor, src: &Tensor, dim: usize, start: usize) -> (r: Result<
    Tensor,
    candle_core::Error,
>)
    requires
        dim < dims(*src).len() ==> start + dims(*src)[dim as int] <= usize::MAX,
        fits(dims(*x)),
        solid(dims(*x)),
        solid(dims(*src)),
    ensures
        can_scatter(*x, *src, dim as int, start as int) ==> r is Ok,
        r is Ok ==> scatters(*x, *src, dim as int, start as int),
        r is Ok ==> element_type(*src) == element_type(*x),
        r matches Ok(t) ==> scattered(*x, *src, dim as int, start as int, t),
{
    x.slice_scatter(src, dim, start)
}

/// `Tensor::repeat`: a tensor, with at least one element, put next to itself along every
/// dimension. On the processor it succeeds.
#[verifier::external_body]
pub(crate) fn repeat(x: &Tensor, times: Vec<usize>) -> (r: Result<Tensor, candle_core::Error>)
    requires
        solid(dims(*x)),
        times@.len() == dims(*x).len(),
        forall|k: int| 0 <= k < times@.len() ==> 0 < #[trigger] times@[k],
        fits(Seq::new(times@.len(), |k: int| (dims(*x)[k] * times@[k]) as usize)),
        forall|k: int|
            0 <= k < times@.len() ==> dims(*x)[k] * (#[trigger] times@[k]) <= usize::MAX,
    ensures
        workable(*x) ==> r is Ok,
        r matches Ok(t) ==> repeated(*x, times@, t),
{
    x.repeat(times)
}

/// `Tensor::unsqueeze`: a tensor with one more dimension, of size one.
#[verifier::external_body]
pub(crate) fn unsqueeze(x: &Tensor, dim: usize) -> (r: Result<Tensor, candle_core::Error>)
    ensures
        r is Ok <==> dim <= dims(*x).len(),
        r matches Ok(t) ==> unsqueezed(*x, dim as int, t),
{
    x.unsqueeze(dim)
}

/// `Tensor::squeeze`: a tensor without a dimension of size one.
#[verifier::external_body]
pub(crate) fn squeeze(x: &Tensor, dim: usize) -> (r: Result<Tensor, candle_core::Error>)
    requires
        dim < dims(*x).len(),
        dims(*x)[dim as int] == 1,
    ensures
        r is Ok,
        r matches Ok(t) ==> squeezed(*x, dim as int, t),
{
    x.squeeze(dim)
}

/// `Tensor::reshape`: the same elements, at least one, in other dimensions. On the
/// processor it succeeds.
#[verifier::external_body]
pub(crate) fn reshape(x: &Tensor, shape: Vec<usize>) -> (r: Result<Tensor, candle_core::Error>)
    requires
        fits(shape@),
        fits(dims(*x)),
        solid(dims(*x)),
        count(shape@) == count(dims(*x)),
    ensures
        workable(*x) ==> r is Ok,
        r matches Ok(t) ==> reshaped(*x, shape@, t),
{
    x.reshape(shape)
}

/// `Tensor::transpose`: a tensor with two dimensions exchanged.
#[verifier::external_body]
pub(crate) fn transpose(x: &Tensor, a: usize, b: usize) -> (r: Result<Tensor, candle_core::Error>)
    ensures
        r is Ok <==> has_both(dims(*x), a, b),
        r matches Ok(t) ==> transposed(*x, a as int, b as int, t),
{
    x.transpose(a, b)
}

/// `Tensor::contiguous`: the same elements, at least one, laid out one after the other. On
/// the processor it succeeds.
#[verifier::external_body]
pub(crate) fn contiguous(x: &Tensor) -> (r: Result<Tensor, candle_core::Error>)
    requires
        fits(dims(*x)),
        solid(dims(*x)),
    ensures
        workable(*x) ==> r is Ok,
        r matches Ok(t) ==> same_tensor(*x, t),
{
    x.contiguous()
}

/// `Tensor::to_dtype`: the elements, at least one, turned into another type. On the
/// processor it succeeds between the types that the processor has. What becomes of an
/// element is not said where that differs from machine to machine.
#[verifier::external_body]
pub(crate) fn to_dtype(x: &Tensor, dtype: DType) -> (r: Result<Tensor, candle_core::Error>)
    requires
        fits(dims(*x)),
        solid(dims(*x)),
    ensures
        can_convert(*x, kind(dtype)) ==> r is Ok,
        r matches Ok(t) ==> dims(t) == dims(*x),
        r matches Ok(t) ==> element_type(t) == kind(dtype),
        r matches Ok(t) ==> device_of(t) == device_of(*x),
        r matches Ok(t) ==> convertible(element_type(*x), kind(dtype)) ==> forall|i: Seq<int>|
            inside(dims(t), i) ==> #[trigger] entries(t)[i] == if element_type(*x) == kind(dtype) {
                entries(*x)[i]
            } else {
                converted(element_type(*x), kind(dtype), entries(*x)[i])
            },
{
    x.to_dtype(dtype)
}

/// `Tensor::broadcast_mul`: the products of the elements of two tensors that go together.
/// On the processor it succeeds for tensors of one type. Integers with a product that is
/// too large are left out.
#[verifier::external_body]
pub(crate) fn broadcast_mul(a: &Tensor, b: &Tensor) -> (r: Result<Tensor, candle_core::Error>)
    requires
        forall|d: Seq<usize>, i: Seq<int>| #[trigger]
            go_together(dims(*a), dims(*b), d) && #[trigger] inside(d, i) ==> holds(
                element_type(*a),
                times(
                    element_type(*a),
                    entries(*a)[opposite(dims(*a), i)],
                    entries(*b)[opposite(dims(*b), i)],
                ),
            ),
        forall|d: Seq<usize>| #[trigger] go_together(dims(*a), dims(*b), d) ==> fits(d),
    ensures
        can_combine(*a, *b) ==> r is Ok,
        r matches Ok(t) ==> alike(t, *a),
        r matches Ok(t) ==> go_together(dims(*a), dims(*b), dims(t)),
        r matches Ok(t) ==> forall|i: Seq<int>|
            inside(dims(t), i) ==> #[trigger] entries(t)[i] == if floating(element_type(*a)) {
                product(
                    element_type(*a),
                    entries(*a)[opposite(dims(*a), i)],
                    entries(*b)[opposite(dims(*b), i)],
                )
            } else {
                entries(*a)[opposite(dims(*a), i)] * entries(*b)[opposite(dims(*b), i)]
            },
{
    a.broadcast_mul(b)
}

/// `Tensor::broadcast_add`: the sums of the elements of two tensors that go together.
/// On the processor it succeeds for tensors of one type. Integers with a sum that is too
/// large are left out.
#[verifier::external_body]
pub(crate) fn broadcast_add(a: &Tensor, b: &Tensor) -> (r: Result<Tensor, candle_core::Error>)
    requires
        forall|d: Seq<usize>, i: Seq<int>| #[trigger]
            go_together(dims(*a), dims(*b), d) && #[trigger] inside(d, i) ==> holds(
                element_type(*a),
                plus(
                    element_type(*a),
                    entries(*a)[opposite(dims(*a), i)],
                    entries(*b)[opposite(dims(*b), i)],
                ),
            ),
        forall|d: Seq<usize>| #[trigger] go_together(dims(*a), dims(*b), d) ==> fits(d),
    ensures
        can_combine(*a, *b) ==> r is Ok,
        r matches Ok(t) ==> alike(t, *a),
        r matches Ok(t) ==> go_together(dims(*a), dims(*b), dims(t)),
        r matches Ok(t) ==> forall|i: Seq<int>|
            inside(dims(t), i) ==> #[trigger] entries(t)[i] == if floating(element_type(*a)) {
                sum(
                    element_type(*a),
                    entries(*a)[opposite(dims(*a), i)],
                    entries(*b)[opposite(dims(*b), i)],
                )
            } else {
                entries(*a)[opposite(dims(*a), i)] + entries(*b)[opposite(dims(*b), i)]
            },
{
    a.broadcast_add(b)
}

/// `Tensor::broadcast_sub`: the differences of the elements of two tensors that go
/// together. On the processor it succeeds for tensors of one type. Integers with a
/// difference that is too small are left out.
#[verifier::external_body]
pub(crate) fn broadcast_sub(a: &Tensor, b: &Tensor) -> (r: Result<Tensor, candle_core::Error>)
    requires
        forall|d: Seq<usize>, i: Seq<int>| #[trigger]
            go_together(dims(*a), dims(*b), d) && #[trigger] inside(d, i) ==> holds(
                element_type(*a),
                minus(
                    element_type(*a),
                    entries(*a)[opposite(dims(*a), i)],
                    entries(*b)[opposite(dims(*b), i)],
                ),
            ),
        forall|d: Seq<usize>| #[trigger] go_together(dims(*a), dims(*b), d) ==> fits(d),
    ensures
        can_combine(*a, *b) ==> r is Ok,
        r matches Ok(t) ==> alike(t, *a),
        r matches Ok(t) ==> go_together(dims(*a), dims(*b), dims(t)),
        r matches Ok(t) ==> forall|i: Seq<int>|
            inside(dims(t), i) ==> #[trigger] entries(t)[i] == if floating(element_type(*a)) {
                difference(
                    element_type(*a),
                    entries(*a)[opposite(dims(*a), i)],
                    entries(*b)[opposite(dims(*b), i)],
                )
            } else {
                entries(*a)[opposite(dims(*a), i)] - entries(*b)[opposite(dims(*b), i)]
            },
{
    a.broadcast_sub(b)
}

/// `Tensor::cat` of two tensors, each with at least one element: one after the other along
/// a dimension. On the processor it succeeds for tensors of one type that differ in no
/// other dimension.
#[verifier::external_body]
pub(crate) fn cat(a: &Tensor, b: &Tensor, dim: usize) -> (r: Result<Tensor, candle_core::Error>)
    requires
        solid(dims(*a)),
        solid(dims(*b)),
        dim < dims(*a).len(),
        dims(*a).len() == dims(*b).len(),
        dims(*a)[dim as int] + dims(*b)[dim as int] <= usize::MAX,
        fits(
            dims(*a).update(dim as int, (dims(*a)[dim as int] + dims(*b)[dim as int]) as usize),
        ),
    ensures
        can_join(*a, *b, dim as int) ==> r is Ok,
        r matches Ok(t) ==> concatenated(*a, *b, dim as int, t),
{
    Tensor::cat(&[a, b], dim)
}

/// `Tensor::arange` on `u32`: the numbers from `start` up to `end`, without `end`. On the
/// processor it succeeds.
#[verifier::external_body]
pub(crate) fn arange(start: u32, end: u32, device: &Device) -> (r: Result<
    Tensor,
    candle_core::Error,
>)
    requires
        start <= end,
        end - start <= usize::MAX,
        fits(seq![(end - start) as usize]),
    ensures
        on_cpu(*device) ==> r is Ok,
        r matches Ok(t) ==> dims(t) == seq![(end - start) as usize],
        r matches Ok(t) ==> device_of(t) == *device,
        r matches Ok(t) ==> element_type(t) is U32,
        r matches Ok(t) ==> forall|i: Seq<int>|
            inside(dims(t), i) ==> #[trigger] entries(t)[i] == start + i[0],
{
    Tensor::arange(start, end, device)
}

/// `Tensor::ge` on two tensors of `u32` with at least one element: 1 where the first
/// element is not below the second, and 0 elsewhere. On the processor it succeeds for
/// tensors of the same dimensions.
#[verifier::external_body]
pub(crate) fn ge(a: &Tensor, b: &Tensor) -> (r: Result<Tensor, candle_core::Error>)
    requires
        element_type(*a) is U32,
        element_type(*b) is U32,
        fits(dims(*a)),
        solid(dims(*a)),
        solid(dims(*b)),
    ensures
        can_compare(*a, *b) ==> r is Ok,
        r is Ok ==> dims(*b) == dims(*a),
        r matches Ok(t) ==> dims(t) == dims(*a),
        r matches Ok(t) ==> device_of(t) == device_of(*a),
        r matches Ok(t) ==> element_type(t) is U8,
        r matches Ok(t) ==> forall|i: Seq<int>|
            inside(dims(t), i) ==> #[trigger] entries(t)[i] == if entries(*a)[i] >= entries(
                *b,
            )[i] {
                1int
            } else {
                0int
            },
{
    a.ge(b)
}

/// The room that a tensor takes is the product of its sizes, with one for a size of zero,
/// and it can be addressed if eight bytes for each element can.
pub proof fn law_room_is_the_product(d: Seq<usize>, n: usize)
    ensures
        room(seq![]) == 1,
        n > 0 ==> room(d.push(n)) == room(d) * n,
        n == 0 ==> room(d.push(n)) == room(d),
        fits(d) <==> room(d) * 8 <= isize::MAX,
        solid(d) <==> forall|k: int| 0 <= k < d.len() ==> #[trigger] d[k] > 0,
        solid(d) ==> count(d) == room(d),
        !solid(d) ==> count(d) == 0,
{
    assert(d.push(n).drop_last() =~= d);
    assert(room(d) * 1 == room(d));
}

/// The types of elements: five are integers, and of the others the processor has all but
/// four. A type turns into another in one way on every machine, but for one pair.
pub proof fn law_types_of_elements(of: ElementType, other: ElementType)
    ensures
        floating(of) <==> of != ElementType::U8 && of != ElementType::U32 && of
            != ElementType::I16 && of != ElementType::I32 && of != ElementType::I64,
        storable(of) <==> of != ElementType::F6E2M3 && of != ElementType::F6E3M2 && of
            != ElementType::F4 && of != ElementType::F8E8M0,
        convertible(of, other) <==> of != ElementType::F64 || other != ElementType::F16,
{
}

/// Operations are sure of a tensor that lies on the processor, whatever its dimensions, if
/// the processor has elements of its type.
pub proof fn law_tensors_on_the_processor(t: Tensor)
    ensures
        workable(t) <==> on_cpu(device_of(t)) && storable(element_type(t)),
{
}

} // verus!
