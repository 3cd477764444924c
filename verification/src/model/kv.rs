//! A cache of keys and values, with buffers allocated ahead.
use candle_core::{DType, Device, Tensor};
use vstd::arithmetic::power2::pow2;
use vstd::prelude::*;

use super::tensor::{
    addressable, alike, device_of, dims, element_type, entries, fits, inside, is_solid, kind,
    lemma_blank, narrow, on_cpu, repeat, room, scatters, slice_scatter, solid, storable,
    tensor_device, tensor_dims, tensor_dtype, tensor_kind, workable, wrapped, zeros, ElementType,
};
use super::ModelError;

verus! {

/// Per-layer key/value cache. Each layer keeps its keys and values in buffers of
/// dimensions (B, H, max_pos, D), of which the first `pos` positions are in use.
#[derive(Debug)]
pub struct KVCache {
    layers: Vec<(Tensor, Tensor)>,
    pos: usize,
}

/// The dimensions of a buffer.
pub open spec fn shape4(b: usize, h: usize, n: usize, d: usize) -> Seq<usize> {
    seq![b, h, n, d]
}

/// The capacity that a buffer of capacity `n` grows to: doubled until it is enough.
pub open spec fn grown(n: int, least: int) -> int
    decreases (if n < least { least - n } else { 0 }),
{
    if n >= least || n <= 0 {
        n
    } else {
        grown(2 * n, least)
    }
}

/// The capacity of a buffer that has been asked to hold `least` positions.
pub open spec fn new_capacity(n: int, least: int) -> int {
    if least <= n {
        n
    } else if n == 0 {
        grown(1, least)
    } else {
        grown(n, least)
    }
}

/// `new` holds the first `pos` positions of `old`, and zeros after them.
pub open spec fn moved(old: Tensor, new: Tensor, capacity: int, pos: int) -> bool {
    &&& alike(new, old)
    &&& dims(new) == dims(old).update(2, capacity as usize)
    &&& forall|i: Seq<int>|
        inside(dims(new), i) ==> #[trigger] entries(new)[i] == if i[2] < pos {
            entries(old)[i]
        } else {
            0
        }
}

/// `new` holds the first `pos` positions of `old` in every row of the batch, and zeros
/// after them.
pub open spec fn spread_out(old: Tensor, new: Tensor, batch: int, capacity: int, pos: int) -> bool {
    &&& alike(new, old)
    &&& dims(new) == shape4(batch as usize, dims(old)[1], capacity as usize, dims(old)[3])
    &&& forall|i: Seq<int>|
        inside(dims(new), i) ==> #[trigger] entries(new)[i] == if i[2] < pos {
            entries(old)[i.update(0, 0)]
        } else {
            0
        }
}

/// `all` is the first `pos` positions of `old`, followed by `added`.
pub open spec fn extended(old: Tensor, added: Tensor, pos: int, all: Tensor) -> bool {
    &&& alike(all, old)
    &&& dims(added).len() == 4
    &&& dims(all) == dims(added).update(2, (pos + dims(added)[2]) as usize)
    &&& forall|i: Seq<int>|
        inside(dims(all), i) ==> #[trigger] entries(all)[i] == if i[2] < pos {
            entries(old)[i]
        } else {
            entries(added)[i.update(2, i[2] - pos)]
        }
}

/// `new` is a buffer `old`, with `added` written into it from position `pos` on. If it has
/// grown it has zeros from there on elsewhere.
pub open spec fn refilled(old: Tensor, added: Tensor, pos: int, grew: bool, new: Tensor) -> bool {
    &&& alike(new, old)
    &&& dims(new).len() == 4
    &&& dims(new) == dims(old).update(2, dims(new)[2])
    &&& !grew ==> dims(new) == dims(old)
    &&& dims(added) == dims(new).update(2, dims(added)[2])
    &&& pos + dims(added)[2] <= dims(new)[2]
    &&& forall|i: Seq<int>|
        inside(dims(new), i) ==> #[trigger] entries(new)[i] == if pos <= i[2] < pos + dims(
            added,
        )[2] {
            entries(added)[i.update(2, i[2] - pos)]
        } else if grew && i[2] >= pos {
            0
        } else {
            entries(old)[i]
        }
}

/// `new` holds the first `pos` positions of `old`.
pub open spec fn kept(old: Tensor, new: Tensor, pos: int) -> bool {
    forall|i: Seq<int>|
        inside(dims(old), i) && inside(dims(new), i) && i[2] < pos ==> #[trigger] entries(new)[i]
            == entries(old)[i]
}

/// A buffer of these dimensions, whatever its capacity.
pub open spec fn buffer(t: Tensor, b: usize, h: usize, d: usize) -> bool {
    &&& dims(t).len() == 4
    &&& dims(t)[0] == b
    &&& dims(t)[1] == h
    &&& dims(t)[3] == d
    &&& fits(dims(t))
}

/// A size, or one where it is zero.
pub open spec fn at_least_one(n: int) -> int {
    if n == 0 {
        1
    } else {
        n
    }
}

proof fn lemma_room4(b: usize, h: usize, n: usize, d: usize)
    ensures
        room(shape4(b, h, n, d)) == at_least_one(b as int) * at_least_one(h as int) * at_least_one(
            n as int,
        ) * at_least_one(d as int),
{
    let s = shape4(b, h, n, d);
    assert(s.drop_last() =~= seq![b, h, n]);
    assert(s.drop_last().drop_last() =~= seq![b, h]);
    assert(s.drop_last().drop_last().drop_last() =~= seq![b]);
    assert(s.drop_last().drop_last().drop_last().drop_last() =~= seq![]);
    reveal_with_fuel(room, 5);
    assert(at_least_one(b as int) * 1 == at_least_one(b as int)) by (nonlinear_arith);
    assert(room(seq![b]) == at_least_one(b as int)) by {
        assert(seq![b].drop_last() =~= seq![]);
        assert(1 * at_least_one(b as int) == at_least_one(b as int)) by (nonlinear_arith);
    }
}

/// A buffer with a smaller batch, or a smaller capacity, takes no more room.
proof fn lemma_fits_monotone(b: usize, h: usize, n: usize, d: usize, b2: usize, n2: usize)
    requires
        fits(shape4(b2, h, n2, d)),
        b <= b2,
        n <= n2,
    ensures
        fits(shape4(b, h, n, d)),
{
    lemma_room4(b, h, n, d);
    lemma_room4(b2, h, n2, d);
    let (x, y, z, w) = (
        at_least_one(b as int),
        at_least_one(h as int),
        at_least_one(n as int),
        at_least_one(d as int),
    );
    let (x2, z2) = (at_least_one(b2 as int), at_least_one(n2 as int));
    assert(x * y * z * w <= x2 * y * z2 * w) by (nonlinear_arith)
        requires
            1 <= x <= x2,
            1 <= z <= z2,
            1 <= y,
            1 <= w,
    {
        assert(x * y <= x2 * y);
        assert((x * y) * z <= (x2 * y) * z2);
        assert(((x * y) * z) * w <= ((x2 * y) * z2) * w);
    }
}

/// The capacity of a buffer takes no more room than the buffer.
proof fn lemma_capacity_bound(b: usize, h: usize, n: usize, d: usize)
    requires
        fits(shape4(b, h, n, d)),
    ensures
        n * 8 <= isize::MAX,
{
    lemma_room4(b, h, n, d);
    let (x, y, z, w) = (
        at_least_one(b as int),
        at_least_one(h as int),
        at_least_one(n as int),
        at_least_one(d as int),
    );
    assert(z <= x * y * z * w) by (nonlinear_arith)
        requires
            1 <= x,
            1 <= y,
            1 <= z,
            1 <= w,
    {
        assert(1 <= x * y);
        assert(z <= (x * y) * z);
        assert((x * y) * z <= ((x * y) * z) * w);
    }
}

proof fn lemma_grown(n: int, least: int)
    requires
        0 < n,
    ensures
        grown(n, least) >= n,
        grown(n, least) >= least,
        n < least ==> grown(n, least) < 2 * least,
    decreases (if n < least { least - n } else { 0 }),
{
    if n < least {
        lemma_grown(2 * n, least);
    }
}

/// A growing buffer at least doubles.
pub proof fn law_capacity_doubles(n: nat, least: nat)
    ensures
        new_capacity(n as int, least as int) >= least,
        least > n ==> new_capacity(n as int, least as int) >= 2 * n,
        least > n ==> new_capacity(n as int, least as int) < 2 * least,
        least <= n ==> new_capacity(n as int, least as int) == n,
{
    if n == 0 {
        lemma_grown(1, least as int);
    } else {
        lemma_grown(n as int, least as int);
        if n < least {
            lemma_grown(2 * n as int, least as int);
        }
    }
}

/// A cache of which the first `n` layers have been moved to larger buffers still holds
/// what is in use.
proof fn lemma_partly_moved(
    before: KVCache,
    after: KVCache,
    b: usize,
    h: usize,
    w: usize,
    capacity: usize,
    n: int,
)
    requires
        before.wf(),
        before.shape()[0] == b,
        before.shape()[1] == h,
        before.shape()[3] == w,
        fits(shape4(b, h, capacity, w)),
        before.capacity() <= capacity,
        after.layers@.len() == before.layers@.len(),
        after.pos == before.pos,
        0 <= n <= after.layers@.len(),
        forall|j: int|
            0 <= j < n ==> {
                &&& moved(
                    before.layers@[j].0,
                    (#[trigger] after.layers@[j]).0,
                    capacity as int,
                    before.pos as int,
                )
                &&& moved(
                    before.layers@[j].1,
                    after.layers@[j].1,
                    capacity as int,
                    before.pos as int,
                )
            },
        forall|j: int|
            n <= j < after.layers@.len() ==> #[trigger] after.layers@[j] == before.layers@[j],
    ensures
        after.keeps(&before),
{
    assert forall|l: int| 0 <= l < after.buffers().len() implies {
        &&& buffer((#[trigger] after.buffers()[l]).0, b, h, w)
        &&& buffer(after.buffers()[l].1, b, h, w)
        &&& alike(after.buffers()[l].0, before.buffers()[0].0)
        &&& alike(after.buffers()[l].1, before.buffers()[0].0)
    } by {
        assert(after.buffers()[l] == after.layers@[l]);
        assert(before.buffers()[l] == before.layers@[l]);
        assert(buffer(before.buffers()[l].0, b, h, w));
        if l < n {
            assert(dims(after.layers@[l].0) =~= shape4(b, h, capacity, w));
            assert(dims(after.layers@[l].1) =~= shape4(b, h, capacity, w));
        }
    }
    assert(buffer(after.buffers()[0].0, b, h, w));
    assert(alike(after.buffers()[0].0, before.buffers()[0].0));
    assert forall|l: int| 0 <= l < after.buffers().len() implies {
        &&& kept(before.buffers()[l].0, (#[trigger] after.buffers()[l]).0, before.used() as int)
        &&& kept(before.buffers()[l].1, after.buffers()[l].1, before.used() as int)
    } by {
        assert(after.buffers()[l] == after.layers@[l]);
        assert(before.buffers()[l] == before.layers@[l]);
    }
}

/// What differs from a buffer in its number of positions alone, and has no more of them
/// but at least one, can be written over its beginning.
proof fn lemma_part_scatters(buf: Tensor, src: Tensor)
    requires
        dims(buf).len() == 4,
        dims(src) == dims(buf).update(2, dims(src)[2]),
        0 < dims(src)[2] <= dims(buf)[2],
        solid(dims(buf)),
    ensures
        solid(dims(src)),
        scatters(buf, src, 2, 0),
{
    assert forall|k: int| 0 <= k < dims(src).len() implies 0 < #[trigger] dims(src)[k] by {
        assert(0 < dims(buf)[k]);
    }
    assert forall|k: int| 0 <= k < 4 && k != 2 implies #[trigger] dims(src)[k] == dims(buf)[k] by {
        assert(dims(src)[k] == dims(buf).update(2, dims(src)[2])[k]);
    }
}

/// A buffer with `capacity` positions that holds the first `pos` of `old`.
fn larger_buffer(
    old: &Tensor,
    b: usize,
    h: usize,
    capacity: usize,
    d: usize,
    pos: usize,
    dtype: DType,
    device: &Device,
) -> (r: Result<Tensor, ModelError>)
    requires
        buffer(*old, b, h, d),
        fits(shape4(b, h, capacity, d)),
        pos <= capacity,
        kind(dtype) == element_type(*old),
        *device == device_of(*old),
    ensures
        workable(*old) && pos <= dims(*old)[2] ==> r is Ok,
        r matches Err(e) ==> e is Backend,
        r matches Ok(t) ==> moved(*old, t, capacity as int, pos as int),
{
    let fresh = match zeros(vec![b, h, capacity, d], dtype, device) {
        Ok(t) => t,
        Err(e) => {
            return Err(ModelError::Backend(e));
        },
    };
    assert(dims(fresh) =~= dims(*old).update(2, capacity));
    let shape = tensor_dims(&fresh);
    if pos == 0 || !is_solid(&shape) {
        proof {
            assert forall|i: Seq<int>| inside(dims(fresh), i) implies #[trigger] entries(fresh)[i]
                == if i[2] < pos {
                entries(*old)[i]
            } else {
                0
            } by {
                if pos == 0 {
                    assert(0 <= i[2]);
                } else {
                    lemma_blank(dims(fresh), i);
                }
            }
        }
        return Ok(fresh);
    }
    let src = match narrow(old, 2, 0, pos) {
        Ok(t) => t,
        Err(e) => {
            return Err(ModelError::Backend(e));
        },
    };
    proof {
        assert(dims(src) =~= dims(fresh).update(2, dims(src)[2]));
        lemma_part_scatters(fresh, src);
    }
    match slice_scatter(&fresh, &src, 2, 0) {
        Ok(t) => {
            proof {
                assert forall|i: Seq<int>| inside(dims(t), i) implies #[trigger] entries(t)[i]
                    == if i[2] < pos {
                    entries(*old)[i]
                } else {
                    0
                } by {
                    assert(inside(dims(fresh), i));
                    assert(0 <= i[2]);
                    if i[2] < pos {
                        let j = i.update(2, i[2] - 0);
                        assert(j =~= i);
                        assert(inside(dims(src), i)) by {
                            assert forall|k: int| 0 <= k < dims(src).len() implies 0
                                <= #[trigger] i[k] < dims(src)[k] by {
                                assert(dims(t)[k] == dims(*old).update(2, capacity)[k]);
                            }
                        }
                        assert(entries(src)[i] == entries(*old)[i.update(2, i[2] + 0)]);
                        assert(i.update(2, i[2] + 0) =~= i);
                    }
                }
            }
            Ok(t)
        },
        Err(e) => Err(ModelError::Backend(e)),
    }
}

/// Why `added` cannot be written into `buf` from position `pos` on, if it cannot.
pub open spec fn misfit(buf: Tensor, added: Tensor, pos: int) -> Option<ModelError> {
    if element_type(added) != element_type(buf) {
        Some(ModelError::Types)
    } else if !scatters(buf, added, 2, pos) {
        Some(ModelError::Shape)
    } else {
        None
    }
}

/// `buf` with `added` written into it from position `pos` on, and its first `total`
/// positions.
fn written(buf: &Tensor, added: &Tensor, pos: usize, total: usize) -> (r: Result<
    (Tensor, Tensor),
    ModelError,
>)
    requires
        dims(*buf).len() == 4,
        fits(dims(*buf)),
        dims(*added).len() > 2 ==> pos + dims(*added)[2] <= usize::MAX,
    ensures
        misfit(*buf, *added, pos as int) matches Some(e) ==> r == Err::<(Tensor, Tensor), _>(e),
        r matches Err(e) ==> misfit(*buf, *added, pos as int) == Some(e) || e is Backend,
        misfit(*buf, *added, pos as int) is None && workable(*buf) && on_cpu(device_of(*added))
            && total <= dims(*buf)[2] ==> r is Ok,
        r matches Ok((new, all)) ==> {
            &&& alike(new, *buf)
            &&& dims(new) == dims(*buf)
            &&& refilled(*buf, *added, pos as int, false, new)
            &&& total <= dims(*buf)[2]
            &&& dims(all) == dims(*buf).update(2, total)
            &&& forall|i: Seq<int>|
                inside(dims(all), i) ==> #[trigger] entries(all)[i] == entries(new)[i]
            &&& dims(*added).len() == 4
            &&& pos + dims(*added)[2] == total ==> extended(*buf, *added, pos as int, all)
        },
{
    if tensor_kind(added) != tensor_kind(buf) {
        return Err(ModelError::Types);
    }
    let d = tensor_dims(buf);
    let part = tensor_dims(added);
    if part.len() != 4 || part[0] != d[0] || part[1] != d[1] || part[3] != d[3] || pos + part[2]
        > d[2] {
        assert(!scatters(*buf, *added, 2, pos as int)) by {
            if part@.len() == 4 {
                assert(part@[0] == dims(*added)[0] && part@[1] == dims(*added)[1] && part@[3]
                    == dims(*added)[3]);
            }
        }
        return Err(ModelError::Shape);
    }
    let new = if is_solid(&part) {
        assert(solid(d@)) by {
            assert(0 < part@[0] && 0 < part@[1] && 0 < part@[2] && 0 < part@[3]);
        }
        match slice_scatter(buf, added, 2, pos) {
            Ok(t) => t,
            Err(e) => {
                return Err(ModelError::Backend(e));
            },
        }
    } else {
        buf.clone()
    };
    proof {
        assert(dims(new) =~= dims(*buf).update(2, dims(new)[2]));
        assert(dims(*added) =~= dims(new).update(2, dims(*added)[2]));
        assert forall|i: Seq<int>| inside(dims(new), i) && !solid(part@) && pos <= i[2] < pos
            + part@[2] implies false by {
            let j = i.update(2, i[2] - pos);
            assert(0 <= i[0] < d[0] && 0 <= i[1] < d[1] && 0 <= i[3] < d[3]);
            assert(inside(part@, j));
            lemma_blank(part@, j);
        }
    }
    let all = match narrow(&new, 2, 0, total) {
        Ok(t) => t,
        Err(e) => {
            return Err(ModelError::Backend(e));
        },
    };
    proof {
        assert forall|i: Seq<int>| inside(dims(all), i) implies #[trigger] entries(all)[i]
            == entries(new)[i] && inside(dims(new), i) by {
            assert(i.update(2, i[2] + 0) =~= i);
            assert forall|k: int| 0 <= k < dims(new).len() implies 0 <= #[trigger] i[k] < dims(
                new,
            )[k] by {
                assert(0 <= i[k] < dims(all)[k]);
            }
        }
        if pos + dims(*added)[2] == total {
            assert(dims(all) =~= dims(*added).update(2, total));
            assert forall|i: Seq<int>| inside(dims(all), i) implies #[trigger] entries(all)[i]
                == if i[2] < pos {
                entries(*buf)[i]
            } else {
                entries(*added)[i.update(2, i[2] - pos)]
            } by {
                assert(entries(all)[i] == entries(new)[i]);
                assert(inside(dims(new), i));
                assert(i[2] < dims(all)[2]);
            }
        }
    }
    Ok((new, all))
}

/// A buffer with a batch of `batch` rows that all hold the first `pos` positions of
/// `old`, which has one row.
fn spread_buffer(
    old: &Tensor,
    batch: usize,
    h: usize,
    capacity: usize,
    d: usize,
    pos: usize,
    dtype: DType,
    device: &Device,
) -> (r: Result<Tensor, ModelError>)
    requires
        buffer(*old, 1, h, d),
        0 < batch,
        pos <= capacity,
        fits(shape4(batch, h, capacity, d)),
        kind(dtype) == element_type(*old),
        *device == device_of(*old),
    ensures
        workable(*old) && pos <= dims(*old)[2] ==> r is Ok,
        r matches Err(e) ==> e is Backend,
        r matches Ok(t) ==> spread_out(*old, t, batch as int, capacity as int, pos as int),
{
    let fresh = match zeros(vec![batch, h, capacity, d], dtype, device) {
        Ok(t) => t,
        Err(e) => {
            return Err(ModelError::Backend(e));
        },
    };
    assert(dims(fresh) =~= shape4(batch, h, capacity, d));
    let shape = tensor_dims(&fresh);
    if pos == 0 || !is_solid(&shape) {
        proof {
            assert forall|i: Seq<int>| inside(dims(fresh), i) implies #[trigger] entries(fresh)[i]
                == if i[2] < pos {
                entries(*old)[i.update(0, 0)]
            } else {
                0
            } by {
                if pos == 0 {
                    assert(0 <= i[2]);
                } else {
                    lemma_blank(dims(fresh), i);
                }
            }
        }
        return Ok(fresh);
    }
    let src = match narrow(old, 2, 0, pos) {
        Ok(t) => t,
        Err(e) => {
            return Err(ModelError::Backend(e));
        },
    };
    let times = vec![batch, 1, 1, 1];
    proof {
        let wide = Seq::new(times@.len(), |k: int| (dims(src)[k] * times@[k]) as usize);
        assert(dims(src) =~= shape4(1, h, pos, d));
        assert(0 < shape@[1] && 0 < shape@[3]);
        assert(times@ =~= seq![batch, 1, 1, 1]);
        assert(1 * batch == batch && h * 1 == h && pos * 1 == pos && d * 1 == d)
            by (nonlinear_arith);
        assert(wide[0] == batch && wide[1] == h && wide[2] == pos && wide[3] == d);
        assert(wide =~= shape4(batch, h, pos, d));
        lemma_fits_monotone(batch, h, pos, d, batch, capacity);
    }
    let ready = match repeat(&src, times) {
        Ok(t) => t,
        Err(e) => {
            return Err(ModelError::Backend(e));
        },
    };
    proof {
        assert(dims(ready)[0] == dims(src)[0] * times@[0]);
        assert(dims(ready)[1] == dims(src)[1] * times@[1]);
        assert(dims(ready)[2] == dims(src)[2] * times@[2]);
        assert(dims(ready)[3] == dims(src)[3] * times@[3]);
        assert(dims(ready) =~= dims(fresh).update(2, dims(ready)[2]));
        lemma_part_scatters(fresh, ready);
    }
    match slice_scatter(&fresh, &ready, 2, 0) {
        Ok(t) => {
            proof {
                assert forall|i: Seq<int>| inside(dims(t), i) implies #[trigger] entries(t)[i]
                    == if i[2] < pos {
                    entries(*old)[i.update(0, 0)]
                } else {
                    0
                } by {
                    assert(inside(dims(fresh), i));
                    assert(dims(ready)[2] == dims(src)[2] * times@[2]);
                    assert(0 <= i[0] < batch && 0 <= i[1] < h && 0 <= i[2] < capacity && 0 <= i[3]
                        < d);
                    if i[2] < pos {
                        assert(i.update(2, i[2] - 0) =~= i);
                        assert(dims(ready) =~= shape4(batch, h, pos, d));
                        assert(inside(dims(ready), i));
                        let j = i.update(0, 0);
                        assert(i[0] % 1 == 0);
                        vstd::arithmetic::div_mod::lemma_small_mod(i[1] as nat, h as nat);
                        vstd::arithmetic::div_mod::lemma_small_mod(i[2] as nat, pos as nat);
                        vstd::arithmetic::div_mod::lemma_small_mod(i[3] as nat, d as nat);
                        assert(wrapped(dims(src), i) =~= j);
                        assert(inside(dims(src), j));
                        assert(entries(src)[j] == entries(*old)[j.update(2, j[2] + 0)]);
                        assert(j.update(2, j[2] + 0) =~= j);
                    }
                }
            }
            Ok(t)
        },
        Err(e) => Err(ModelError::Backend(e)),
    }
}

/// What is inserted is read back: after two insertions into a layer the part in use is
/// what was in use before, followed by the first keys and then the second.
pub proof fn law_insertions_are_read_back(
    buf: Tensor,
    pos: int,
    first: Tensor,
    all_first: Tensor,
    buf_after: Tensor,
    second: Tensor,
    all_second: Tensor,
)
    requires
        0 <= pos,
        extended(buf, first, pos, all_first),
        pos + dims(first)[2] <= usize::MAX,
        kept(all_first, buf_after, pos + dims(first)[2]),
        dims(buf_after).len() == 4,
        forall|k: int|
            0 <= k < 4 && k != 2 ==> #[trigger] dims(buf_after)[k] == dims(first)[k],
        dims(buf_after)[2] >= pos + dims(first)[2],
        extended(buf_after, second, pos + dims(first)[2], all_second),
        forall|k: int| 0 <= k < 4 && k != 2 ==> #[trigger] dims(second)[k] == dims(first)[k],
        pos + dims(first)[2] + dims(second)[2] <= usize::MAX,
    ensures
        dims(all_second)[2] == pos + dims(first)[2] + dims(second)[2],
        forall|i: Seq<int>|
            inside(dims(all_second), i) ==> #[trigger] entries(all_second)[i] == if i[2] < pos {
                entries(buf)[i]
            } else if i[2] < pos + dims(first)[2] {
                entries(first)[i.update(2, i[2] - pos)]
            } else {
                entries(second)[i.update(2, i[2] - pos - dims(first)[2])]
            },
{
    let mid = pos + dims(first)[2];
    assert forall|i: Seq<int>| inside(dims(all_second), i) implies #[trigger] entries(
        all_second,
    )[i] == if i[2] < pos {
        entries(buf)[i]
    } else if i[2] < mid {
        entries(first)[i.update(2, i[2] - pos)]
    } else {
        entries(second)[i.update(2, i[2] - pos - dims(first)[2])]
    } by {
        assert forall|k: int| 0 <= k < 4 implies 0 <= #[trigger] i[k] by {
            assert(0 <= i[k] < dims(all_second)[k]);
        }
        if i[2] < mid {
            assert(inside(dims(all_first), i)) by {
                assert forall|k: int| 0 <= k < 4 implies 0 <= #[trigger] i[k] < dims(
                    all_first,
                )[k] by {
                    assert(0 <= i[k] < dims(all_second)[k]);
                    if k != 2 {
                        assert(dims(second)[k] == dims(first)[k]);
                    }
                }
            }
            assert(inside(dims(buf_after), i)) by {
                assert forall|k: int| 0 <= k < 4 implies 0 <= #[trigger] i[k] < dims(
                    buf_after,
                )[k] by {
                    assert(0 <= i[k] < dims(all_first)[k]);
                    if k != 2 {
                        assert(dims(buf_after)[k] == dims(first)[k]);
                    }
                }
            }
            assert(entries(buf_after)[i] == entries(all_first)[i]);
        } else {
            assert(i[2] - mid == i[2] - pos - dims(first)[2]);
        }
    }
}

/// Once a layer has the keys and values of the next positions, those of another layer, as
/// many, leave it as it is.
pub proof fn law_layers_are_apart(
    start: KVCache,
    mid: KVCache,
    end: KVCache,
    a: int,
    b: int,
    first: (Tensor, Tensor, Tensor, Tensor),
    second: (Tensor, Tensor, Tensor, Tensor),
)
    requires
        start.wf(),
        0 <= a < start.buffers().len() - 1,
        0 <= b < start.buffers().len(),
        a != b,
        mid.has_inserted(&start, a, first.0, first.1, first.2, first.3),
        end.has_inserted(&mid, b, second.0, second.1, second.2, second.3),
        dims(second.0)[2] == dims(first.0)[2],
    ensures
        end.buffers()[a] == mid.buffers()[a],
{
    law_capacity_doubles(start.capacity() as nat, start.used() + dims(first.0)[2] as nat);
}

impl KVCache {
    /// The buffers, keys before values.
    pub closed spec fn buffers(&self) -> Seq<(Tensor, Tensor)> {
        self.layers@
    }

    /// The number of positions in use.
    pub closed spec fn used(&self) -> nat {
        self.pos as nat
    }

    /// The dimensions of the first layer's keys.
    pub open spec fn shape(&self) -> Seq<usize> {
        dims(self.buffers()[0].0)
    }

    /// The capacity of the first layer's keys.
    pub open spec fn capacity(&self) -> int {
        self.shape()[2] as int
    }

    /// There is a layer, all buffers agree in the type of their elements, their device and
    /// every dimension but their capacity, and the first layer has room for the positions
    /// in use.
    pub open spec fn wf(&self) -> bool {
        &&& 0 < self.buffers().len() <= usize::MAX
        &&& self.used() <= self.capacity()
        &&& forall|l: int|
            0 <= l < self.buffers().len() ==> {
                &&& buffer(
                    (#[trigger] self.buffers()[l]).0,
                    self.shape()[0],
                    self.shape()[1],
                    self.shape()[3],
                )
                &&& buffer(
                    self.buffers()[l].1,
                    self.shape()[0],
                    self.shape()[1],
                    self.shape()[3],
                )
                &&& alike(self.buffers()[l].0, self.buffers()[0].0)
                &&& alike(self.buffers()[l].1, self.buffers()[0].0)
            }
    }

    /// All buffers have one capacity.
    pub open spec fn settled(&self) -> bool {
        &&& self.wf()
        &&& forall|l: int|
            0 <= l < self.buffers().len() ==> {
                &&& dims((#[trigger] self.buffers()[l]).0) == self.shape()
                &&& dims(self.buffers()[l].1) == self.shape()
            }
    }

    /// All buffers have one capacity, and lie on the processor with elements of a type that
    /// it has.
    pub open spec fn ready(&self) -> bool {
        self.settled() && workable(self.buffers()[0].0)
    }

    /// Why a tensor of dimensions `d` cannot be written into a layer after the positions in
    /// use, if it cannot, once there is room for `least` positions.
    pub open spec fn refusal(&self, of: ElementType, d: Seq<usize>, least: int) -> Option<
        ModelError,
    > {
        if of != element_type(self.buffers()[0].0) {
            Some(ModelError::Types)
        } else if !(d.len() == 4 && d[0] == self.shape()[0] && d[1] == self.shape()[1] && d[3]
            == self.shape()[3] && self.used() + d[2] <= new_capacity(self.capacity(), least)) {
            Some(ModelError::Shape)
        } else {
            None
        }
    }

    /// Why keys and values cannot be written into a layer, if they cannot.
    pub open spec fn refusal_of_pair(
        &self,
        k_type: ElementType,
        k: Seq<usize>,
        v_type: ElementType,
        v: Seq<usize>,
    ) -> Option<ModelError> {
        let least = self.used() + k[2];
        match self.refusal(k_type, k, least) {
            Some(e) => Some(e),
            None => self.refusal(v_type, v, least),
        }
    }

    /// The dimensions of buffers that hold `least` positions.
    pub open spec fn shape_for(&self, least: int) -> Seq<usize> {
        self.shape().update(2, new_capacity(self.capacity(), least) as usize)
    }

    /// Whether there can be buffers that hold `least` positions.
    pub open spec fn can_hold(&self, least: int) -> bool {
        &&& new_capacity(self.capacity(), least) <= usize::MAX
        &&& fits(self.shape_for(least))
    }

    /// What was in use stays as it was.
    pub open spec fn keeps(&self, old: &Self) -> bool {
        &&& self.wf()
        &&& alike(self.buffers()[0].0, old.buffers()[0].0)
        &&& self.used() == old.used()
        &&& self.buffers().len() == old.buffers().len()
        &&& forall|l: int|
            0 <= l < self.buffers().len() ==> {
                &&& kept(old.buffers()[l].0, (#[trigger] self.buffers()[l]).0, old.used() as int)
                &&& kept(old.buffers()[l].1, self.buffers()[l].1, old.used() as int)
            }
    }

    /// After the keys and values of the next positions have been written into a layer of
    /// `old`, `keys` and `values` are what it has in use with them. The other layers stay as
    /// they were, but for their capacity, and after the last layer the new positions are in
    /// use.
    pub open spec fn has_inserted(
        &self,
        old: &Self,
        layer: int,
        k: Tensor,
        v: Tensor,
        keys: Tensor,
        values: Tensor,
    ) -> bool {
        let pos = old.used() as int;
        let total = pos + dims(k)[2];
        let grew = total > old.capacity();
        &&& self.wf()
        &&& old.settled() ==> self.settled()
        &&& alike(self.buffers()[0].0, old.buffers()[0].0)
        &&& self.buffers().len() == old.buffers().len()
        &&& self.used() == if layer == old.buffers().len() - 1 {
            total
        } else {
            pos
        }
        &&& self.capacity() == new_capacity(old.capacity(), total)
        &&& extended(old.buffers()[layer].0, k, pos, keys)
        &&& dims(v).len() == 4
        &&& dims(v)[2] == dims(k)[2] ==> extended(old.buffers()[layer].1, v, pos, values)
        &&& dims(values) == dims(old.buffers()[layer].1).update(2, total as usize)
        &&& kept(keys, self.buffers()[layer].0, total)
        &&& kept(values, self.buffers()[layer].1, total)
        &&& refilled(old.buffers()[layer].0, k, pos, grew, self.buffers()[layer].0)
        &&& refilled(old.buffers()[layer].1, v, pos, grew, self.buffers()[layer].1)
        &&& forall|l: int|
            0 <= l < old.buffers().len() && l != layer ==> if grew {
                &&& moved(
                    old.buffers()[l].0,
                    (#[trigger] self.buffers()[l]).0,
                    self.capacity(),
                    pos,
                )
                &&& moved(old.buffers()[l].1, self.buffers()[l].1, self.capacity(), pos)
            } else {
                self.buffers()[l] == old.buffers()[l]
            }
    }

    /// Every row of a batch of so many holds what the one row of `old` held, in buffers of the
    /// same capacity.
    pub open spec fn has_expanded(&self, old: &Self, batch: usize) -> bool {
        &&& self.used() == old.used()
        &&& self.buffers().len() == old.buffers().len()
        &&& self.shape() == old.shape().update(0, batch)
        &&& forall|l: int|
            0 <= l < self.buffers().len() ==> {
                &&& spread_out(
                    old.buffers()[l].0,
                    (#[trigger] self.buffers()[l]).0,
                    batch as int,
                    old.capacity(),
                    old.used() as int,
                )
                &&& spread_out(
                    old.buffers()[l].1,
                    self.buffers()[l].1,
                    batch as int,
                    old.capacity(),
                    old.used() as int,
                )
            }
    }

    /// Buffers of another capacity hold what those of `old` held where it was in use.
    pub open spec fn has_grown(&self, old: &Self, capacity: int) -> bool {
        &&& self.used() == old.used()
        &&& self.buffers().len() == old.buffers().len()
        &&& forall|l: int|
            0 <= l < self.buffers().len() ==> {
                &&& moved(
                    old.buffers()[l].0,
                    (#[trigger] self.buffers()[l]).0,
                    capacity,
                    old.used() as int,
                )
                &&& moved(old.buffers()[l].1, self.buffers()[l].1, capacity, old.used() as int)
            }
    }

    /// Creates a cache with buffers of the given shape (B, H, max_pos, D) for each layer.
    pub fn new(
        num_layers: usize,
        shape: (usize, usize, usize, usize),
        device: &Device,
        dtype: DType,
    ) -> (r: Result<Self, ModelError>)
        requires
            fits(shape4(shape.0, shape.1, shape.2, shape.3)),
        ensures
            num_layers == 0 <==> r is Err && r->Err_0 is NoLayers,
            r matches Err(e) ==> e is NoLayers || e is Backend,
            on_cpu(*device) ==> (r is Ok <==> num_layers > 0 && storable(kind(dtype))),
            r matches Ok(cache) ==> {
                &&& cache.settled()
                &&& on_cpu(*device) ==> cache.ready()
                &&& cache.used() == 0
                &&& cache.buffers().len() == num_layers
                &&& cache.shape() == shape4(shape.0, shape.1, shape.2, shape.3)
                &&& forall|l: int|
                    0 <= l < num_layers ==> {
                        &&& element_type((#[trigger] cache.buffers()[l]).0) == kind(dtype)
                        &&& element_type(cache.buffers()[l].1) == kind(dtype)
                        &&& device_of(cache.buffers()[l].0) == *device
                        &&& device_of(cache.buffers()[l].1) == *device
                    }
                &&& forall|l: int, i: Seq<int>|
                    #![trigger cache.buffers()[l], inside(cache.shape(), i)]
                    0 <= l < num_layers && inside(cache.shape(), i) ==> {
                        &&& entries(cache.buffers()[l].0)[i] == 0
                        &&& entries(cache.buffers()[l].1)[i] == 0
                    }
            },
    {
        if num_layers == 0 {
            return Err(ModelError::NoLayers);
        }
        let mut layers: Vec<(Tensor, Tensor)> = Vec::new();
        let ghost wanted = shape4(shape.0, shape.1, shape.2, shape.3);
        for l in 0..num_layers
            invariant
                wanted == shape4(shape.0, shape.1, shape.2, shape.3),
                fits(wanted),
                on_cpu(*device) && l > 0 ==> storable(kind(dtype)),
                layers@.len() == l,
                forall|j: int|
                    0 <= j < l ==> {
                        &&& dims((#[trigger] layers@[j]).0) == wanted
                        &&& dims(layers@[j].1) == wanted
                        &&& element_type(layers@[j].0) == kind(dtype)
                        &&& element_type(layers@[j].1) == kind(dtype)
                        &&& device_of(layers@[j].0) == *device
                        &&& device_of(layers@[j].1) == *device
                        &&& forall|i: Seq<int>|
                            inside(wanted, i) ==> entries(layers@[j].0)[i] == 0
                        &&& forall|i: Seq<int>|
                            inside(wanted, i) ==> entries(layers@[j].1)[i] == 0
                    },
        {
            let k = match zeros(vec![shape.0, shape.1, shape.2, shape.3], dtype, device) {
                Ok(t) => t,
                Err(e) => {
                    return Err(ModelError::Backend(e));
                },
            };
            let v = match zeros(vec![shape.0, shape.1, shape.2, shape.3], dtype, device) {
                Ok(t) => t,
                Err(e) => {
                    return Err(ModelError::Backend(e));
                },
            };
            layers.push((k, v));
        }
        Ok(KVCache { layers, pos: 0 })
    }

    /// The number of positions in use.
    pub fn pos(&self) -> (n: usize)
        ensures
            n == self.used(),
    {
        self.pos
    }

    /// The number of layers.
    pub fn num_layers(&self) -> (n: usize)
        ensures
            n == self.buffers().len(),
    {
        self.layers.len()
    }

    /// The number of positions that there is room for.
    pub fn max_pos(&self) -> (n: usize)
        requires
            self.wf(),
        ensures
            n == self.capacity(),
    {
        let d = tensor_dims(&self.layers[0].0);
        assert(buffer(self.buffers()[0].0, self.shape()[0], self.shape()[1], self.shape()[3]));
        d[2]
    }

    /// Whether there can be buffers that hold `least` positions.
    pub fn has_room_for(&self, least: usize) -> (r: bool)
        requires
            self.wf(),
        ensures
            r == self.can_hold(least as int),
    {
        assert(buffer(self.buffers()[0].0, self.shape()[0], self.shape()[1], self.shape()[3]));
        let mut d = tensor_dims(&self.layers[0].0);
        let ghost shape = d@;
        let ghost target = new_capacity(shape[2] as int, least as int);
        let mut capacity: u128 = d[2] as u128;
        if (least as u128) > capacity {
            if capacity == 0 {
                capacity = 1;
            }
            while capacity < least as u128
                invariant
                    0 < capacity,
                    capacity < 2 * least || capacity == 1 || capacity == shape[2],
                    shape[2] <= usize::MAX,
                    grown(capacity as int, least as int) == target,
                decreases (if capacity < least { least - capacity } else { 0 }),
            {
                capacity = capacity * 2;
            }
        }
        if capacity > usize::MAX as u128 {
            return false;
        }
        d.set(2, capacity as usize);
        assert(d@ =~= shape.update(2, target as usize));
        addressable(&d)
    }

    /// Whether there can be buffers for a batch of `batch`.
    pub fn has_room_for_batch(&self, batch: usize) -> (r: bool)
        requires
            self.wf(),
        ensures
            r == fits(shape4(batch, self.shape()[1], self.shape()[2], self.shape()[3])),
    {
        assert(buffer(self.buffers()[0].0, self.shape()[0], self.shape()[1], self.shape()[3]));
        let mut d = tensor_dims(&self.layers[0].0);
        let ghost shape = d@;
        d.set(0, batch);
        assert(d@ =~= shape4(batch, shape[1], shape[2], shape[3]));
        addressable(&d)
    }

    /// Makes room for at least `min_capacity` positions. Buffers that are too small are
    /// replaced by larger ones, and what is in use is copied.
    pub fn ensure_capacity(&mut self, min_capacity: usize) -> (r: Result<(), ModelError>)
        requires
            old(self).wf(),
            old(self).can_hold(min_capacity as int),
        ensures
            final(self).keeps(old(self)),
            min_capacity <= old(self).capacity() ==> r is Ok,
            old(self).ready() ==> r is Ok,
            r is Ok && min_capacity > old(self).capacity() ==> final(self).has_grown(
                old(self),
                new_capacity(old(self).capacity(), min_capacity as int),
            ),
            r matches Err(e) ==> e is Backend,
            r is Ok ==> old(self).settled() ==> final(self).settled(),
            r is Ok ==> final(self).capacity() == new_capacity(
                old(self).capacity(),
                min_capacity as int,
            ),
            min_capacity <= old(self).capacity() ==> *final(self) == *old(self),
            r is Ok && min_capacity > old(self).capacity() ==> forall|l: int|
                0 <= l < final(self).buffers().len() ==> {
                    &&& moved(
                        old(self).buffers()[l].0,
                        (#[trigger] final(self).buffers()[l]).0,
                        final(self).capacity(),
                        old(self).used() as int,
                    )
                    &&& moved(
                        old(self).buffers()[l].1,
                        final(self).buffers()[l].1,
                        final(self).capacity(),
                        old(self).used() as int,
                    )
                },
    {
        assert(buffer(self.buffers()[0].0, self.shape()[0], self.shape()[1], self.shape()[3]));
        let d = tensor_dims(&self.layers[0].0);
        let (b, h, old_max, w) = (d[0], d[1], d[2], d[3]);
        if min_capacity <= old_max {
            return Ok(());
        }
        let ghost target = new_capacity(old_max as int, min_capacity as int);
        proof {
            assert(self.shape_for(min_capacity as int) =~= shape4(b, h, target as usize, w));
            lemma_capacity_bound(b, h, target as usize, w);
            if old_max == 0 {
                lemma_grown(1, min_capacity as int);
            } else {
                lemma_grown(old_max as int, min_capacity as int);
            }
        }
        let mut new_max: usize = if old_max == 0 {
            1
        } else {
            old_max
        };
        while new_max < min_capacity
            invariant
                0 < new_max,
                grown(new_max as int, min_capacity as int) == target,
                target * 8 <= isize::MAX,
            decreases (if new_max < min_capacity { min_capacity - new_max } else { 0 }),
        {
            proof {
                lemma_grown(2 * new_max as int, min_capacity as int);
            }
            new_max = new_max * 2;
        }
        let dtype = tensor_dtype(&self.layers[0].0);
        let device = tensor_device(&self.layers[0].0).clone();
        assert(self.layers@[0] == self.buffers()[0]);
        let pos = self.pos;
        let n = self.layers.len();
        let ghost before = *self;
        for l in 0..n
            invariant
                before == *old(self),
                min_capacity > before.capacity(),
                n == before.layers@.len(),
                before.wf(),
                self.layers@.len() == n,
                self.pos == before.pos,
                pos == before.pos,
                kind(dtype) == element_type(before.buffers()[0].0),
                device == device_of(before.buffers()[0].0),
                fits(shape4(b, h, new_max, w)),
                before.capacity() <= new_max,
                before.shape()[0] == b,
                before.shape()[1] == h,
                before.shape()[3] == w,
                forall|j: int|
                    0 <= j < l ==> {
                        &&& moved(
                            before.layers@[j].0,
                            (#[trigger] self.layers@[j]).0,
                            new_max as int,
                            pos as int,
                        )
                        &&& moved(
                            before.layers@[j].1,
                            self.layers@[j].1,
                            new_max as int,
                            pos as int,
                        )
                    },
                forall|j: int| l <= j < n ==> #[trigger] self.layers@[j] == before.layers@[j],
        {
            assert(self.layers@[l as int] == before.layers@[l as int]);
            assert(before.buffers()[l as int] == before.layers@[l as int]);
            let k = match larger_buffer(
                &self.layers[l].0,
                b,
                h,
                new_max,
                w,
                pos,
                dtype,
                &device,
            ) {
                Ok(t) => t,
                Err(e) => {
                    proof {
                        lemma_partly_moved(before, *self, b, h, w, new_max, l as int);
                    }
                    return Err(e);
                },
            };
            let v = match larger_buffer(
                &self.layers[l].1,
                b,
                h,
                new_max,
                w,
                pos,
                dtype,
                &device,
            ) {
                Ok(t) => t,
                Err(e) => {
                    proof {
                        lemma_partly_moved(before, *self, b, h, w, new_max, l as int);
                    }
                    return Err(e);
                },
            };
            self.layers[l] = (k, v);
        }
        proof {
            lemma_partly_moved(before, *self, b, h, w, new_max, n as int);
            assert(moved(
                before.buffers()[0].0,
                self.buffers()[0].0,
                new_max as int,
                pos as int,
            ));
            if before.settled() {
                assert forall|l: int| 0 <= l < self.buffers().len() implies {
                    &&& dims((#[trigger] self.buffers()[l]).0) == self.shape()
                    &&& dims(self.buffers()[l].1) == self.shape()
                } by {
                    assert(self.layers@[l] == self.buffers()[l]);
                    assert(before.buffers()[l] == before.layers@[l]);
                }
            }
            assert forall|l: int| 0 <= l < self.buffers().len() implies {
                &&& moved(
                    before.buffers()[l].0,
                    (#[trigger] self.buffers()[l]).0,
                    self.capacity(),
                    before.used() as int,
                )
                &&& moved(
                    before.buffers()[l].1,
                    self.buffers()[l].1,
                    self.capacity(),
                    before.used() as int,
                )
            } by {
                assert(self.layers@[l] == self.buffers()[l]);
            }
        }
        Ok(())
    }

    /// Writes the keys and values of the next positions into a layer's buffers. Returns
    /// the part of the buffers that is in use with them. Once the last layer has them,
    /// the positions count as used.
    pub fn insert_layer(&mut self, layer_idx: usize, k: Tensor, v: Tensor) -> (r: Result<
        (Tensor, Tensor),
        ModelError,
    >)
        requires
            old(self).wf(),
            layer_idx < old(self).buffers().len(),
            dims(k).len() > 2 ==> old(self).used() + dims(k)[2] <= usize::MAX,
            dims(k).len() > 2 ==> old(self).can_hold(old(self).used() + dims(k)[2]),
            dims(v).len() > 2 ==> old(self).used() + dims(v)[2] <= usize::MAX,
        ensures
            dims(k).len() < 3 <==> r is Err && r->Err_0 is Rank,
            dims(k).len() >= 3 && dims(k)[2] == 0 <==> r is Err && r->Err_0 is EmptySequence,
            r is Err ==> final(self).keeps(old(self)),
            old(self).settled() && dims(k).len() >= 3 && dims(k)[2] > 0 ==> match old(
                self,
            ).refusal_of_pair(element_type(k), dims(k), element_type(v), dims(v)) {
                Some(e) => r is Err && (r->Err_0 == e || r->Err_0 is Backend),
                None => r is Ok || r->Err_0 is Backend,
            },
            old(self).ready() && on_cpu(device_of(k)) && on_cpu(device_of(v)) ==> !(r is Err
                && r->Err_0 is Backend),
            r matches Err(e) ==> e is Rank || e is EmptySequence || e is Types || e is Shape
                || e is Backend,
            r matches Ok((keys, values)) ==> final(self).has_inserted(
                old(self),
                layer_idx as int,
                k,
                v,
                keys,
                values,
            ),
    {
        let shape = tensor_dims(&k);
        if shape.len() < 3 {
            assert(self.keeps(old(self)));
            return Err(ModelError::Rank);
        }
        let seq_len = shape[2];
        if seq_len == 0 {
            assert(self.keeps(old(self)));
            return Err(ModelError::EmptySequence);
        }
        let pos = self.pos;
        let required = pos + seq_len;
        match self.ensure_capacity(required) {
            Ok(()) => {},
            Err(e) => {
                return Err(e);
            },
        }
        let ghost grown_up = *self;
        let ghost at = layer_idx as int;
        let ghost before = *old(self);
        proof {
            assert(grown_up.buffers()[at] == grown_up.layers@[at]);
            assert(grown_up.keeps(&before));
            law_capacity_doubles(before.capacity() as nat, required as nat);
            assert(alike(grown_up.buffers()[at].0, grown_up.buffers()[0].0));
            assert(alike(grown_up.buffers()[at].1, grown_up.buffers()[0].0));
            if before.settled() {
                assert(dims(grown_up.buffers()[at].0) == grown_up.shape());
                assert(dims(grown_up.buffers()[at].1) == grown_up.shape());
                assert(misfit(grown_up.buffers()[at].0, k, pos as int) == before.refusal(
                    element_type(k),
                    dims(k),
                    required as int,
                ));
                assert(misfit(grown_up.buffers()[at].1, v, pos as int) == before.refusal(
                    element_type(v),
                    dims(v),
                    required as int,
                ));
            }
            assert forall|i: Seq<int>| inside(dims(grown_up.buffers()[at].0), i) && i[2]
                < pos implies #[trigger] entries(grown_up.buffers()[at].0)[i] == entries(
                before.buffers()[at].0,
            )[i] by {}
            assert forall|i: Seq<int>| inside(dims(grown_up.buffers()[at].1), i) && i[2]
                < pos implies #[trigger] entries(grown_up.buffers()[at].1)[i] == entries(
                before.buffers()[at].1,
            )[i] by {}
        }
        let (new_k, keys) = match written(&self.layers[layer_idx].0, &k, pos, required) {
            Ok(pair) => pair,
            Err(e) => {
                return Err(e);
            },
        };
        let (new_v, values) = match written(&self.layers[layer_idx].1, &v, pos, required) {
            Ok(pair) => pair,
            Err(e) => {
                return Err(e);
            },
        };
        self.layers[layer_idx] = (new_k, new_v);
        if layer_idx == self.layers.len() - 1 {
            self.pos = required;
        }
        proof {
            law_capacity_doubles(before.capacity() as nat, required as nat);
            assert forall|l: int| 0 <= l < self.buffers().len() implies {
                &&& buffer(
                    (#[trigger] self.buffers()[l]).0,
                    grown_up.shape()[0],
                    grown_up.shape()[1],
                    grown_up.shape()[3],
                )
                &&& buffer(
                    self.buffers()[l].1,
                    grown_up.shape()[0],
                    grown_up.shape()[1],
                    grown_up.shape()[3],
                )
                &&& dims(self.buffers()[l].0) == dims(grown_up.buffers()[l].0)
                &&& dims(self.buffers()[l].1) == dims(grown_up.buffers()[l].1)
            } by {
                assert(buffer(
                    grown_up.buffers()[l].0,
                    grown_up.shape()[0],
                    grown_up.shape()[1],
                    grown_up.shape()[3],
                ));
            }
            assert(dims(self.buffers()[0].0) == dims(grown_up.buffers()[0].0));
            assert(self.shape() == grown_up.shape());
            let grew = required > before.capacity();
            assert forall|l: int| 0 <= l < self.buffers().len() && l != at implies if grew {
                &&& moved(
                    before.buffers()[l].0,
                    (#[trigger] self.buffers()[l]).0,
                    self.capacity(),
                    pos as int,
                )
                &&& moved(before.buffers()[l].1, self.buffers()[l].1, self.capacity(), pos as int)
            } else {
                self.buffers()[l] == before.buffers()[l]
            } by {
                assert(self.buffers()[l] == grown_up.buffers()[l]);
            }
            assert(self.buffers()[at] == (new_k, new_v));
            assert(dims(new_k) =~= dims(before.buffers()[at].0).update(2, dims(new_k)[2]));
            assert(dims(new_v) =~= dims(before.buffers()[at].1).update(2, dims(new_v)[2]));
            assert(dims(values) =~= dims(before.buffers()[at].1).update(2, required));
            assert(refilled(before.buffers()[at].0, k, pos as int, grew, new_k));
            assert(refilled(before.buffers()[at].1, v, pos as int, grew, new_v));
        }
        Ok((keys, values))
    }

    /// Turns a cache for a batch of one into one for `new_batch`, in which every row holds
    /// what the one row held. The capacity and the number of positions in use stay. A
    /// batch that has the size already stays as it is, and any other is refused. An error
    /// leaves the cache as it was.
    pub fn expand_batch(&mut self, new_batch: usize) -> (r: Result<(), ModelError>)
        requires
            old(self).wf(),
            new_batch > 0 ==> fits(
                shape4(
                    new_batch,
                    old(self).shape()[1],
                    old(self).shape()[2],
                    old(self).shape()[3],
                ),
            ),
        ensures
            new_batch == 0 <==> r is Err && r->Err_0 is EmptyBatch,
            new_batch == old(self).shape()[0] ==> r is Ok || new_batch == 0,
            new_batch == old(self).shape()[0] ==> *final(self) == *old(self),
            0 < new_batch && new_batch != old(self).shape()[0] && old(self).shape()[0] != 1
                ==> r is Err && r->Err_0 == ModelError::BatchChange(
                old(self).shape()[0],
                new_batch,
            ),
            r is Err ==> *final(self) == *old(self),
            old(self).ready() && new_batch > 0 && old(self).shape()[0] == 1 ==> r is Ok,
            r is Ok && new_batch != old(self).shape()[0] ==> final(self).has_expanded(
                old(self),
                new_batch,
            ),
            r is Err && new_batch > 0 && old(self).shape()[0] == 1 ==> r->Err_0 is Backend,
            r is Ok && new_batch != old(self).shape()[0] ==> {
                &&& final(self).settled()
                &&& old(self).ready() ==> final(self).ready()
                &&& alike(final(self).buffers()[0].0, old(self).buffers()[0].0)
                &&& final(self).used() == old(self).used()
                &&& final(self).buffers().len() == old(self).buffers().len()
                &&& final(self).shape() == old(self).shape().update(0, new_batch)
                &&& forall|l: int|
                    0 <= l < final(self).buffers().len() ==> {
                        &&& spread_out(
                            old(self).buffers()[l].0,
                            (#[trigger] final(self).buffers()[l]).0,
                            new_batch as int,
                            old(self).capacity(),
                            old(self).used() as int,
                        )
                        &&& spread_out(
                            old(self).buffers()[l].1,
                            final(self).buffers()[l].1,
                            new_batch as int,
                            old(self).capacity(),
                            old(self).used() as int,
                        )
                    }
            },
    {
        if new_batch == 0 {
            return Err(ModelError::EmptyBatch);
        }
        assert(buffer(self.buffers()[0].0, self.shape()[0], self.shape()[1], self.shape()[3]));
        let shape = tensor_dims(&self.layers[0].0);
        let (batch, h, max_pos, d) = (shape[0], shape[1], shape[2], shape[3]);
        if new_batch == batch {
            return Ok(());
        }
        if batch != 1 {
            return Err(ModelError::BatchChange(batch, new_batch));
        }
        let dtype = tensor_dtype(&self.layers[0].0);
        let device = tensor_device(&self.layers[0].0).clone();
        let mut layers: Vec<(Tensor, Tensor)> = Vec::new();
        assert(self.layers@[0] == self.buffers()[0]);
        for l in 0..self.layers.len()
            invariant
                *self == *old(self),
                self.wf(),
                kind(dtype) == element_type(self.buffers()[0].0),
                device == device_of(self.buffers()[0].0),
                self.shape()[0] == 1,
                new_batch > 0,
                new_batch != 1,
                h == self.shape()[1],
                max_pos == self.shape()[2],
                d == self.shape()[3],
                fits(shape4(new_batch, h, max_pos, d)),
                layers@.len() == l,
                forall|j: int|
                    0 <= j < l ==> {
                        &&& spread_out(
                            self.buffers()[j].0,
                            (#[trigger] layers@[j]).0,
                            new_batch as int,
                            max_pos as int,
                            self.pos as int,
                        )
                        &&& spread_out(
                            self.buffers()[j].1,
                            layers@[j].1,
                            new_batch as int,
                            max_pos as int,
                            self.pos as int,
                        )
                    },
        {
            assert(self.buffers()[l as int] == self.layers@[l as int]);
            let k = match spread_buffer(
                &self.layers[l].0,
                new_batch,
                h,
                max_pos,
                d,
                self.pos,
                dtype,
                &device,
            ) {
                Ok(t) => t,
                Err(e) => {
                    return Err(e);
                },
            };
            let v = match spread_buffer(
                &self.layers[l].1,
                new_batch,
                h,
                max_pos,
                d,
                self.pos,
                dtype,
                &device,
            ) {
                Ok(t) => t,
                Err(e) => {
                    return Err(e);
                },
            };
            layers.push((k, v));
        }
        let ghost before = *self;
        self.layers = layers;
        proof {
            assert forall|l: int| 0 <= l < self.buffers().len() implies {
                &&& dims((#[trigger] self.buffers()[l]).0) == shape4(new_batch, h, max_pos, d)
                &&& dims(self.buffers()[l].1) == shape4(new_batch, h, max_pos, d)
                &&& alike(self.buffers()[l].0, before.buffers()[0].0)
                &&& alike(self.buffers()[l].1, before.buffers()[0].0)
            } by {
                assert(self.buffers()[l] == self.layers@[l]);
                assert(buffer(before.buffers()[l].0, 1, h, d));
            }
            assert(dims(self.buffers()[0].0) == shape4(new_batch, h, max_pos, d));
            assert(alike(self.buffers()[0].0, before.buffers()[0].0));
            assert(self.shape() =~= before.shape().update(0, new_batch));
            assert forall|l: int| 0 <= l < self.buffers().len() implies {
                &&& spread_out(
                    before.buffers()[l].0,
                    (#[trigger] self.buffers()[l]).0,
                    new_batch as int,
                    before.capacity(),
                    before.used() as int,
                )
                &&& spread_out(
                    before.buffers()[l].1,
                    self.buffers()[l].1,
                    new_batch as int,
                    before.capacity(),
                    before.used() as int,
                )
            } by {
                assert(self.buffers()[l] == self.layers@[l]);
            }
        }
        Ok(())
    }

    /// Forgets all positions. The buffers stay.
    pub fn reset(&mut self)
        requires
            old(self).wf(),
        ensures
            final(self).wf(),
            old(self).settled() ==> final(self).settled(),
            old(self).ready() ==> final(self).ready(),
            final(self).used() == 0,
            final(self).buffers() == old(self).buffers(),
    {
        self.pos = 0;
    }
}

proof fn lemma_grown_by_doubling(n: int, least: int) -> (k: nat)
    requires
        0 < n,
    ensures
        grown(n, least) == n * pow2(k),
        grown(n, least) >= least,
        k > 0 ==> n * pow2((k - 1) as nat) < least,
    decreases (if n < least { least - n } else { 0 }),
{
    if n >= least {
        vstd::arithmetic::power2::lemma2_to64();
        assert(n * 1 == n);
        0
    } else {
        let k = lemma_grown_by_doubling(2 * n, least);
        vstd::arithmetic::power2::lemma_pow2_unfold(k + 1);
        assert((2 * n) * pow2(k) == n * (2 * pow2(k))) by (nonlinear_arith);
        if k > 0 {
            vstd::arithmetic::power2::lemma_pow2_unfold(k);
            let p = pow2((k - 1) as nat);
            assert((2 * n) * p == n * (2 * p)) by (nonlinear_arith);
        } else {
            vstd::arithmetic::power2::lemma2_to64();
            assert(n * 1 == n);
        }
        k + 1
    }
}

/// A capacity that is enough stays. One that is not is doubled, from one on where there was
/// none, as often as is needed to be enough, and no more often.
pub proof fn law_capacity_is_doubled_until_enough(n: nat, least: nat) -> (k: nat)
    ensures
        least <= n ==> new_capacity(n as int, least as int) == n,
        least > n ==> {
            let from: nat = if n == 0 {
                1
            } else {
                n
            };
            &&& new_capacity(n as int, least as int) == from * pow2(k)
            &&& from * pow2(k) >= least
            &&& k > 0 ==> from * pow2((k - 1) as nat) < least
        },
{
    if least > n {
        lemma_grown_by_doubling(
            if n == 0 {
                1
            } else {
                n as int
            },
            least as int,
        )
    } else {
        0
    }
}

/// A larger buffer holds what was in use at the same places, and zeros elsewhere.
pub proof fn law_larger_buffers_hold_the_same(
    old: Tensor,
    new: Tensor,
    capacity: usize,
    pos: int,
    b: int,
    h: int,
    t: int,
    e: int,
)
    requires
        moved(old, new, capacity as int, pos),
        dims(old).len() == 4,
        0 <= b < dims(old)[0],
        0 <= h < dims(old)[1],
        0 <= t < capacity,
        0 <= e < dims(old)[3],
    ensures
        dims(new) == seq![dims(old)[0], dims(old)[1], capacity, dims(old)[3]],
        element_type(new) == element_type(old),
        device_of(new) == device_of(old),
        t < pos ==> entries(new)[seq![b, h, t, e]] == entries(old)[seq![b, h, t, e]],
        t >= pos ==> entries(new)[seq![b, h, t, e]] == 0,
{
    assert(dims(new) =~= seq![dims(old)[0], dims(old)[1], capacity, dims(old)[3]]);
    assert(inside(dims(new), seq![b, h, t, e]));
}

/// Every row of an expanded batch holds what the one row held, at the same places, and zeros
/// elsewhere.
pub proof fn law_every_row_holds_the_same(
    old: Tensor,
    new: Tensor,
    batch: usize,
    capacity: usize,
    pos: int,
    b: int,
    h: int,
    t: int,
    e: int,
)
    requires
        spread_out(old, new, batch as int, capacity as int, pos),
        dims(old).len() == 4,
        0 <= b < batch,
        0 <= h < dims(old)[1],
        0 <= t < capacity,
        0 <= e < dims(old)[3],
    ensures
        dims(new) == seq![batch, dims(old)[1], capacity, dims(old)[3]],
        element_type(new) == element_type(old),
        device_of(new) == device_of(old),
        t < pos ==> entries(new)[seq![b, h, t, e]] == entries(old)[seq![0, h, t, e]],
        t >= pos ==> entries(new)[seq![b, h, t, e]] == 0,
{
    let i = seq![b, h, t, e];
    assert(inside(dims(new), i));
    assert(i.update(0, 0) =~= seq![0, h, t, e]);
}

/// The part in use after an insertion has what was in use before, followed by what was
/// inserted.
pub proof fn law_inserted_positions_follow(
    old: Tensor,
    added: Tensor,
    pos: int,
    all: Tensor,
    b: int,
    h: int,
    t: int,
    e: int,
)
    requires
        extended(old, added, pos, all),
        0 <= pos,
        pos + dims(added)[2] <= usize::MAX,
        0 <= b < dims(added)[0],
        0 <= h < dims(added)[1],
        0 <= t < pos + dims(added)[2],
        0 <= e < dims(added)[3],
    ensures
        dims(all).len() == 4,
        dims(all)[0] == dims(added)[0] && dims(all)[1] == dims(added)[1] && dims(all)[3]
            == dims(added)[3],
        dims(all)[2] == pos + dims(added)[2],
        t < pos ==> entries(all)[seq![b, h, t, e]] == entries(old)[seq![b, h, t, e]],
        t >= pos ==> entries(all)[seq![b, h, t, e]] == entries(added)[seq![b, h, t - pos, e]],
{
    let i = seq![b, h, t, e];
    assert(inside(dims(all), i));
    assert(i.update(2, i[2] - pos) =~= seq![b, h, t - pos, e]);
}

/// What an insertion does to a cache: the layer holds what was in use and then what was
/// inserted, which is handed back; every other layer holds what it held where that was in
/// use; and the new positions count as used after the last layer only.
pub proof fn law_insertions(
    before: KVCache,
    after: KVCache,
    layer: int,
    k: Tensor,
    v: Tensor,
    keys: Tensor,
    values: Tensor,
    b: int,
    h: int,
    t: int,
    e: int,
)
    requires
        before.settled(),
        after.has_inserted(&before, layer, k, v, keys, values),
        0 <= layer < before.buffers().len(),
        dims(v) == dims(k),
        before.used() + dims(k)[2] <= usize::MAX,
        0 <= b < before.shape()[0],
        0 <= h < before.shape()[1],
        0 <= t < before.used() + dims(k)[2],
        0 <= e < before.shape()[3],
    ensures
        ({
            let pos = before.used() as int;
            let n = before.buffers().len() as int;
            let i = seq![b, h, t, e];
            let j = seq![b, h, t - pos, e];
            let key = if t < pos {
                entries(before.buffers()[layer].0)[i]
            } else {
                entries(k)[j]
            };
            let value = if t < pos {
                entries(before.buffers()[layer].1)[i]
            } else {
                entries(v)[j]
            };
            &&& after.buffers().len() == n
            &&& after.used() == (if layer == n - 1 {
                pos + dims(k)[2]
            } else {
                pos
            })
            &&& after.capacity() >= pos + dims(k)[2]
            &&& entries(keys)[i] == key
            &&& entries(values)[i] == value
            &&& entries(after.buffers()[layer].0)[i] == key
            &&& entries(after.buffers()[layer].1)[i] == value
            &&& forall|l: int|
                0 <= l < n && l != layer && t < pos ==> entries(
                    (#[trigger] after.buffers()[l]).0,
                )[i] == entries(before.buffers()[l].0)[i] && entries(after.buffers()[l].1)[i]
                    == entries(before.buffers()[l].1)[i]
        }),
{
    let pos = before.used() as int;
    let total = pos + dims(k)[2];
    let i = seq![b, h, t, e];
    let j = seq![b, h, t - pos, e];
    law_capacity_doubles(before.capacity() as nat, total as nat);
    assert(i.update(2, i[2] - pos) =~= j);
    assert(dims(before.buffers()[layer].0) == before.shape());
    assert(dims(after.buffers()[layer].0) == after.shape());
    assert(dims(after.buffers()[layer].1) == after.shape());
    assert(dims(k) == dims(after.buffers()[layer].0).update(2, dims(k)[2]));
    assert(dims(after.buffers()[layer].0) == dims(before.buffers()[layer].0).update(
        2,
        dims(after.buffers()[layer].0)[2],
    ));
    assert(inside(dims(keys), i));
    assert(inside(dims(values), i));
    assert(inside(dims(after.buffers()[layer].0), i));
    assert(inside(dims(after.buffers()[layer].1), i));
    assert forall|l: int| 0 <= l < before.buffers().len() && l != layer && t < pos implies entries(
        (#[trigger] after.buffers()[l]).0,
    )[i] == entries(before.buffers()[l].0)[i] && entries(after.buffers()[l].1)[i] == entries(
        before.buffers()[l].1,
    )[i] by {
        assert(dims(before.buffers()[l].0) == before.shape());
        assert(dims(after.buffers()[l].0) == after.shape());
        assert(dims(after.buffers()[l].1) == after.shape());
        assert(inside(dims(after.buffers()[l].0), i));
        assert(inside(dims(after.buffers()[l].1), i));
    }
}

/// Keys or values are refused for their type before their dimensions; of the dimensions all
/// but the number of positions must be those of the cache, and there must be room.
pub proof fn law_refused_insertions(
    cache: KVCache,
    of: ElementType,
    d: Seq<usize>,
    least: int,
)
    ensures
        cache.refusal(of, d, least) == Some(ModelError::Types) <==> of != element_type(
            cache.buffers()[0].0,
        ),
        cache.refusal(of, d, least) is None <==> of == element_type(cache.buffers()[0].0)
            && d.len() == 4 && d[0] == cache.shape()[0] && d[1] == cache.shape()[1] && d[3]
            == cache.shape()[3] && cache.used() + d[2] <= new_capacity(cache.capacity(), least),
        cache.refusal(of, d, least) matches Some(e) ==> e == ModelError::Types || e
            == ModelError::Shape,
{
}

/// A cache on the processor, with elements of a type that it has and with buffers of one
/// capacity, is ready, whatever else it holds.
pub proof fn law_ready_caches(cache: KVCache)
    requires
        cache.wf(),
        forall|l: int|
            0 <= l < cache.buffers().len() ==> dims((#[trigger] cache.buffers()[l]).0) == dims(
                cache.buffers()[0].0,
            ) && dims(cache.buffers()[l].1) == dims(cache.buffers()[0].0),
        on_cpu(device_of(cache.buffers()[0].0)),
        storable(element_type(cache.buffers()[0].0)),
    ensures
        cache.ready(),
{
}

/// There is room for so many positions exactly if the buffers that they need can be
/// addressed.
pub proof fn law_room_for_positions(cache: KVCache, least: nat)
    requires
        cache.wf(),
    ensures
        cache.can_hold(least as int) <==> new_capacity(cache.capacity(), least as int)
            <= usize::MAX && room(
            seq![
                cache.shape()[0],
                cache.shape()[1],
                new_capacity(cache.capacity(), least as int) as usize,
                cache.shape()[3],
            ],
        ) * 8 <= isize::MAX,
{
    assert(buffer(cache.buffers()[0].0, cache.shape()[0], cache.shape()[1], cache.shape()[3]));
    assert(cache.shape_for(least as int) =~= seq![
        cache.shape()[0],
        cache.shape()[1],
        new_capacity(cache.capacity(), least as int) as usize,
        cache.shape()[3],
    ]);
}

/// What making room and expanding a batch do to a cache: as many positions are in use as
/// before, in as many layers, and each row holds there what the row that it comes from held.
pub proof fn law_caches_keep_what_is_in_use(
    old: KVCache,
    grown_up: KVCache,
    expanded: KVCache,
    capacity: usize,
    batch: usize,
    layer: int,
    b: int,
    h: int,
    t: int,
    e: int,
)
    requires
        old.settled(),
        old.shape()[0] == 1,
        grown_up.has_grown(&old, capacity as int),
        expanded.has_expanded(&old, batch),
        old.capacity() <= capacity,
        0 <= layer < old.buffers().len(),
        0 <= b < batch,
        0 <= h < old.shape()[1],
        0 <= t < old.used(),
        0 <= e < old.shape()[3],
    ensures
        grown_up.used() == old.used() && expanded.used() == old.used(),
        grown_up.buffers().len() == old.buffers().len(),
        expanded.buffers().len() == old.buffers().len(),
        grown_up.capacity() == capacity,
        expanded.capacity() == old.capacity(),
        expanded.shape()[0] == batch,
        entries(grown_up.buffers()[layer].0)[seq![0, h, t, e]] == entries(
            old.buffers()[layer].0,
        )[seq![0, h, t, e]],
        entries(grown_up.buffers()[layer].1)[seq![0, h, t, e]] == entries(
            old.buffers()[layer].1,
        )[seq![0, h, t, e]],
        entries(expanded.buffers()[layer].0)[seq![b, h, t, e]] == entries(
            old.buffers()[layer].0,
        )[seq![0, h, t, e]],
        entries(expanded.buffers()[layer].1)[seq![b, h, t, e]] == entries(
            old.buffers()[layer].1,
        )[seq![0, h, t, e]],
{
    let pos = old.used() as int;
    let (ok, ov) = old.buffers()[layer];
    assert(dims(ok) == old.shape() && dims(ov) == old.shape());
    assert(moved(old.buffers()[0].0, grown_up.buffers()[0].0, capacity as int, pos));
    assert(dims(old.buffers()[0].0) == old.shape());
    law_larger_buffers_hold_the_same(ok, grown_up.buffers()[layer].0, capacity, pos, 0, h, t, e);
    law_larger_buffers_hold_the_same(ov, grown_up.buffers()[layer].1, capacity, pos, 0, h, t, e);
    let n = old.capacity() as usize;
    law_every_row_holds_the_same(ok, expanded.buffers()[layer].0, batch, n, pos, b, h, t, e);
    law_every_row_holds_the_same(ov, expanded.buffers()[layer].1, batch, n, pos, b, h, t, e);
}

} // verus!
