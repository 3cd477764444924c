//! Rotary position embeddings.
use candle_core::{DType, Tensor};
use vstd::prelude::*;

use super::tensor::{
    addressable, alike, blank, broadcast_add, broadcast_mul, broadcast_sub, cat, converted,
    convertible, device_of, difference, dims, element_type, entries, fits, floating, go_together,
    holds, inside, is_float, is_solid, kind, lemma_blank, lemma_room_monotone, minus, narrow,
    narrowed, on_cpu, opposite, plus, product, solid, spread, storable, sum, tensor_dims,
    tensor_dtype, tensor_kind, times, to_dtype, unsqueeze, workable, ElementType,
};
use super::ModelError;

verus! {

/// Tables of the cosines and sines of the angles by which heads are turned: a row for
/// each position, with an angle for each pair of elements of a head.
#[derive(Debug)]
pub struct RoPE {
    cos: Tensor,
    sin: Tensor,
    max_positions: usize,
    head_dim: usize,
}

/// The entry of a table, as an element of the given type.
pub open spec fn table_entry(table: Tensor, of: ElementType, row: int, column: int) -> int {
    let entry = entries(table)[seq![row, column]];
    if element_type(table) == of {
        entry
    } else {
        converted(element_type(table), of, entry)
    }
}

/// The two products that the element at position `i` is made of once its head has been
/// turned: with the cosine, and the other element of its pair with the sine.
pub open spec fn products(
    cos: Tensor,
    sin: Tensor,
    x: Tensor,
    offset: int,
    half: int,
    i: Seq<int>,
) -> (int, int) {
    let row = offset + i[1];
    let t = element_type(x);
    if i[3] < half {
        (
            times(t, entries(x)[i], table_entry(cos, t, row, i[3])),
            times(t, entries(x)[i.update(3, i[3] + half)], table_entry(sin, t, row, i[3])),
        )
    } else {
        (
            times(t, entries(x)[i], table_entry(cos, t, row, i[3] - half)),
            times(t, entries(x)[i.update(3, i[3] - half)], table_entry(sin, t, row, i[3] - half)),
        )
    }
}

/// The element at position `i` after its head has been turned: of each pair (x1, x2)
/// the first becomes x1 * cos + x2 * sin, and the second x2 * cos - x1 * sin.
pub open spec fn turned(
    cos: Tensor,
    sin: Tensor,
    x: Tensor,
    offset: int,
    half: int,
    i: Seq<int>,
) -> int {
    let (a, b) = products(cos, sin, x, offset, half, i);
    if i[3] < half {
        plus(element_type(x), a, b)
    } else {
        minus(element_type(x), a, b)
    }
}

/// `y` is `x` with its heads turned, by the cosines and sines in `cos` and `sin`: a pair of
/// elements is turned alike in every head of a position, and in every row of the batch.
pub open spec fn turned_by(cos: Tensor, sin: Tensor, x: Tensor, half: int, y: Tensor) -> bool {
    let t = element_type(x);
    forall|i: Seq<int>|
        inside(dims(y), i) ==> #[trigger] entries(y)[i] == if i[3] < half {
            let cell = seq![0, i[1], 0, i[3]];
            plus(
                t,
                times(t, entries(x)[i], entries(cos)[cell]),
                times(t, entries(x)[i.update(3, i[3] + half)], entries(sin)[cell]),
            )
        } else {
            let cell = seq![0, i[1], 0, i[3] - half];
            minus(
                t,
                times(t, entries(x)[i], entries(cos)[cell]),
                times(t, entries(x)[i.update(3, i[3] - half)], entries(sin)[cell]),
            )
        }
}

/// Whether the element at position `i` can be turned: integers must not become too large.
pub open spec fn turns_at(
    cos: Tensor,
    sin: Tensor,
    x: Tensor,
    offset: int,
    half: int,
    i: Seq<int>,
) -> bool {
    let t = element_type(x);
    let (a, b) = products(cos, sin, x, offset, half, i);
    holds(t, a) && holds(t, b) && holds(t, turned(cos, sin, x, offset, half, i))
}

/// `y` is `x` with its heads turned.
pub open spec fn is_turned(rope: RoPE, x: Tensor, offset: int, y: Tensor) -> bool {
    let half = rope.head() as int / 2;
    &&& alike(y, x)
    &&& dims(y) == dims(x).update(3, (2 * half) as usize)
    &&& forall|i: Seq<int>|
        inside(dims(y), i) ==> #[trigger] entries(y)[i] == turned(
            rope.cosines(),
            rope.sines(),
            x,
            offset,
            half,
            i,
        )
}

/// `y` is what `RoPE::apply` makes of heads `x`: they are turned by some cosines and sines,
/// and by those in the tables where the tables turn into the type of the heads in one way on
/// every machine.
pub open spec fn applied(rope: RoPE, x: Tensor, offset: int, y: Tensor) -> bool {
    let half = rope.head() as int / 2;
    &&& alike(y, x)
    &&& dims(y) == dims(x).update(3, (2 * half) as usize)
    &&& exists|cos: Tensor, sin: Tensor| #[trigger] turned_by(cos, sin, x, half, y)
    &&& rope.exact(element_type(x)) ==> is_turned(rope, x, offset, y)
}

/// A part of a sequence is turned as it is within the whole sequence, if it is turned
/// from the position that it has there.
pub proof fn law_parts_turn_alike(
    rope: RoPE,
    x: Tensor,
    offset: int,
    y: Tensor,
    start: int,
    len: usize,
    part: Tensor,
    turned_part: Tensor,
)
    requires
        dims(x).len() == 4,
        dims(x)[3] == rope.head(),
        0 <= start,
        start + len <= dims(x)[1],
        narrowed(x, 1, start, len, part),
        is_turned(rope, x, offset, y),
        is_turned(rope, part, offset + start, turned_part),
    ensures
        dims(turned_part) == dims(y).update(1, len),
        forall|i: Seq<int>|
            inside(dims(turned_part), i) ==> #[trigger] entries(turned_part)[i] == entries(
                y,
            )[i.update(1, i[1] + start)],
{
    let half = rope.head() as int / 2;
    let d = dims(x);
    assert(dims(turned_part) =~= dims(y).update(1, len));
    assert forall|i: Seq<int>| inside(dims(turned_part), i) implies #[trigger] entries(
        turned_part,
    )[i] == entries(y)[i.update(1, i[1] + start)] by {
        assert(0 <= i[0] < d[0] && 0 <= i[1] < len && 0 <= i[2] < d[2] && 0 <= i[3] < 2 * half);
        let there = i.update(1, i[1] + start);
        let other = if i[3] < half {
            i.update(3, i[3] + half)
        } else {
            i.update(3, i[3] - half)
        };
        assert(inside(dims(y), there));
        assert(inside(dims(part), i));
        assert(inside(dims(part), other));
        assert(entries(part)[i] == entries(x)[there]);
        assert(other.update(1, other[1] + start) =~= there.update(3, other[3]));
        assert(entries(part)[other] == entries(x)[there.update(3, other[3])]);
    }
}

/// Whatever the size of the heads, the pair (x1, x2) of elements `e` and `half + e` of a
/// head at position `t` becomes (x1 * c + x2 * s, x2 * c - x1 * s), where c and s are the
/// entries of the tables in row `offset + t` and column `e`, as elements of the type of the
/// heads. So it is turned by the angle of c and s: the sum of the two squares grows by
/// c * c + s * s, and the turn is from x1 towards x2 by s. This is said of integers.
pub proof fn law_pairs_of_integers_are_rotated(
    rope: RoPE,
    x: Tensor,
    offset: int,
    y: Tensor,
    b: int,
    t: int,
    h: int,
    e: int,
)
    requires
        applied(rope, x, offset, y),
        rope.exact(element_type(x)),
        element_type(x) is U8 || element_type(x) is U32 || element_type(x) is I16 || element_type(
            x,
        ) is I32 || element_type(x) is I64,
        dims(x).len() == 4,
        dims(x)[3] == rope.head(),
        0 <= b < dims(x)[0],
        0 <= t < dims(x)[1],
        0 <= h < dims(x)[2],
        0 <= e < rope.head() as int / 2,
    ensures
        ({
            let half = rope.head() as int / 2;
            let x1 = entries(x)[seq![b, t, h, e]];
            let x2 = entries(x)[seq![b, t, h, half + e]];
            let y1 = entries(y)[seq![b, t, h, e]];
            let y2 = entries(y)[seq![b, t, h, half + e]];
            let cell = seq![offset + t, e];
            let c = if element_type(rope.cosines()) == element_type(x) {
                entries(rope.cosines())[cell]
            } else {
                converted(
                    element_type(rope.cosines()),
                    element_type(x),
                    entries(rope.cosines())[cell],
                )
            };
            let s = if element_type(rope.sines()) == element_type(x) {
                entries(rope.sines())[cell]
            } else {
                converted(element_type(rope.sines()), element_type(x), entries(rope.sines())[cell])
            };
            &&& y1 == x1 * c + x2 * s
            &&& y2 == x2 * c - x1 * s
            &&& y1 * y1 + y2 * y2 == (x1 * x1 + x2 * x2) * (c * c + s * s)
            &&& y1 * x2 - y2 * x1 == s * (x1 * x1 + x2 * x2)
        }),
{
    let half = rope.head() as int / 2;
    let i1 = seq![b, t, h, e];
    let i2 = seq![b, t, h, half + e];
    lemma_places_of_pair(rope, x, y, b, t, h, e);
    let (x1, x2, y1, y2) = (entries(x)[i1], entries(x)[i2], entries(y)[i1], entries(y)[i2]);
    let c = table_entry(rope.cosines(), element_type(x), offset + t, e);
    let s = table_entry(rope.sines(), element_type(x), offset + t, e);
    assert(entries(y)[i1] == turned(rope.cosines(), rope.sines(), x, offset, half, i1));
    assert(entries(y)[i2] == turned(rope.cosines(), rope.sines(), x, offset, half, i2));
    assert(y1 == x1 * c + x2 * s && y2 == x2 * c - x1 * s);
    lemma_rotation(x1, x2, c, s);
}

/// A turned pair, by its squares and by the direction of the turn.
proof fn lemma_rotation(x1: int, x2: int, c: int, s: int)
    ensures
        ({
            let y1 = x1 * c + x2 * s;
            let y2 = x2 * c - x1 * s;
            &&& y1 * y1 + y2 * y2 == (x1 * x1 + x2 * x2) * (c * c + s * s)
            &&& y1 * x2 - y2 * x1 == s * (x1 * x1 + x2 * x2)
        }),
{
    let (p, q, r, u) = (x1 * c, x2 * s, x2 * c, x1 * s);
    assert((p + q) * (p + q) == p * p + 2 * (p * q) + q * q) by (nonlinear_arith);
    assert((r - u) * (r - u) == r * r - 2 * (r * u) + u * u) by (nonlinear_arith);
    assert(p * q == r * u) by (nonlinear_arith)
        requires
            p == x1 * c,
            q == x2 * s,
            r == x2 * c,
            u == x1 * s,
    ;
    assert(p * p == (x1 * x1) * (c * c)) by (nonlinear_arith)
        requires
            p == x1 * c,
    ;
    assert(q * q == (x2 * x2) * (s * s)) by (nonlinear_arith)
        requires
            q == x2 * s,
    ;
    assert(r * r == (x2 * x2) * (c * c)) by (nonlinear_arith)
        requires
            r == x2 * c,
    ;
    assert(u * u == (x1 * x1) * (s * s)) by (nonlinear_arith)
        requires
            u == x1 * s,
    ;
    let (a, b, m, n) = (x1 * x1, x2 * x2, c * c, s * s);
    assert((a + b) * (m + n) == a * m + a * n + b * m + b * n) by (nonlinear_arith);
    assert((p + q) * x2 == p * x2 + q * x2) by (nonlinear_arith);
    assert((r - u) * x1 == r * x1 - u * x1) by (nonlinear_arith);
    assert(p * x2 == r * x1) by (nonlinear_arith)
        requires
            p == x1 * c,
            r == x2 * c,
    ;
    assert(q * x2 + u * x1 == s * (x1 * x1 + x2 * x2)) by (nonlinear_arith)
        requires
            q == x2 * s,
            u == x1 * s,
    ;
}

/// The two elements of a pair, by their places.
proof fn lemma_places_of_pair(
    rope: RoPE,
    x: Tensor,
    y: Tensor,
    b: int,
    t: int,
    h: int,
    e: int,
)
    requires
        rope.head() <= usize::MAX,
        dims(x).len() == 4,
        dims(x)[3] == rope.head(),
        dims(y) == dims(x).update(3, (2 * (rope.head() as int / 2)) as usize),
        0 <= b < dims(x)[0],
        0 <= t < dims(x)[1],
        0 <= h < dims(x)[2],
        0 <= e < rope.head() as int / 2,
    ensures
        ({
            let half = rope.head() as int / 2;
            let i1 = seq![b, t, h, e];
            let i2 = seq![b, t, h, half + e];
            &&& inside(dims(y), i1)
            &&& inside(dims(y), i2)
            &&& i1.update(3, i1[3] + half) == i2
            &&& i2.update(3, i2[3] - half) == i1
        }),
{
    let half = rope.head() as int / 2;
    let i1 = seq![b, t, h, e];
    let i2 = seq![b, t, h, half + e];
    assert(i1.update(3, i1[3] + half) =~= i2);
    assert(i2.update(3, i2[3] - half) =~= i1);
}

/// Whatever the size of the heads, a pair of floating point numbers becomes the sum of the
/// products of the first with the cosine and the second with the sine, and the difference
/// of the products of the second with the cosine and the first with the sine.
pub proof fn law_pairs_of_fractions_are_rotated(
    rope: RoPE,
    x: Tensor,
    offset: int,
    y: Tensor,
    b: int,
    t: int,
    h: int,
    e: int,
)
    requires
        applied(rope, x, offset, y),
        rope.exact(element_type(x)),
        !(element_type(x) is U8 || element_type(x) is U32 || element_type(x) is I16
            || element_type(x) is I32 || element_type(x) is I64),
        dims(x).len() == 4,
        dims(x)[3] == rope.head(),
        0 <= b < dims(x)[0],
        0 <= t < dims(x)[1],
        0 <= h < dims(x)[2],
        0 <= e < rope.head() as int / 2,
    ensures
        ({
            let half = rope.head() as int / 2;
            let of = element_type(x);
            let x1 = entries(x)[seq![b, t, h, e]];
            let x2 = entries(x)[seq![b, t, h, half + e]];
            let cell = seq![offset + t, e];
            let c = if element_type(rope.cosines()) == of {
                entries(rope.cosines())[cell]
            } else {
                converted(element_type(rope.cosines()), of, entries(rope.cosines())[cell])
            };
            let s = if element_type(rope.sines()) == of {
                entries(rope.sines())[cell]
            } else {
                converted(element_type(rope.sines()), of, entries(rope.sines())[cell])
            };
            &&& entries(y)[seq![b, t, h, e]] == sum(of, product(of, x1, c), product(of, x2, s))
            &&& entries(y)[seq![b, t, h, half + e]] == difference(
                of,
                product(of, x2, c),
                product(of, x1, s),
            )
        }),
{
    let half = rope.head() as int / 2;
    let i1 = seq![b, t, h, e];
    let i2 = seq![b, t, h, half + e];
    lemma_places_of_pair(rope, x, y, b, t, h, e);
    assert(entries(y)[i1] == turned(rope.cosines(), rope.sines(), x, offset, half, i1));
    assert(entries(y)[i2] == turned(rope.cosines(), rope.sines(), x, offset, half, i2));
}

/// Also where the tables do not turn into the type of the heads in one way on every machine,
/// each pair is turned as a pair, by one cosine and one sine for its position and its place
/// in the head, whatever the row of the batch and the head.
pub proof fn law_pairs_are_rotated_together(
    rope: RoPE,
    x: Tensor,
    offset: int,
    y: Tensor,
) -> (tables: (Tensor, Tensor))
    requires
        applied(rope, x, offset, y),
        !(element_type(x) is U8 || element_type(x) is U32 || element_type(x) is I16
            || element_type(x) is I32 || element_type(x) is I64),
        dims(x).len() == 4,
        dims(x)[3] == rope.head(),
    ensures
        dims(y).len() == 4,
        dims(y)[0] == dims(x)[0] && dims(y)[1] == dims(x)[1] && dims(y)[2] == dims(x)[2],
        dims(y)[3] == 2 * (rope.head() as int / 2),
        element_type(y) == element_type(x),
        device_of(y) == device_of(x),
        forall|i: Seq<int>| #[trigger]
            inside(dims(y), i) && i[3] < rope.head() as int / 2 ==> {
                let of = element_type(x);
                let j = i.update(3, i[3] + rope.head() as int / 2);
                let c = entries(tables.0)[seq![0, i[1], 0, i[3]]];
                let s = entries(tables.1)[seq![0, i[1], 0, i[3]]];
                &&& entries(y)[i] == sum(
                    of,
                    product(of, entries(x)[i], c),
                    product(of, entries(x)[j], s),
                )
                &&& entries(y)[j] == difference(
                    of,
                    product(of, entries(x)[j], c),
                    product(of, entries(x)[i], s),
                )
            },
{
    let half = rope.head() as int / 2;
    let (cos, sin) = choose|cos: Tensor, sin: Tensor| #[trigger] turned_by(cos, sin, x, half, y);
    assert forall|i: Seq<int>| #[trigger] inside(dims(y), i) && i[3] < half implies {
        let of = element_type(x);
        let j = i.update(3, i[3] + half);
        let c = entries(cos)[seq![0, i[1], 0, i[3]]];
        let s = entries(sin)[seq![0, i[1], 0, i[3]]];
        &&& entries(y)[i] == sum(of, product(of, entries(x)[i], c), product(of, entries(x)[j], s))
        &&& entries(y)[j] == difference(
            of,
            product(of, entries(x)[j], c),
            product(of, entries(x)[i], s),
        )
    } by {
        let j = i.update(3, i[3] + half);
        assert(0 <= i[0] < dims(y)[0] && 0 <= i[1] < dims(y)[1] && 0 <= i[2] < dims(y)[2] && 0
            <= i[3] < dims(y)[3]);
        assert(inside(dims(y), j));
        assert(j.update(3, j[3] - half) =~= i);
        assert(entries(y)[i] == entries(y)[i] && entries(y)[j] == entries(y)[j]);
    }
    (cos, sin)
}

/// Rows `offset` to `offset + n` of a table, as a tensor of dimensions (1, n, 1, D).
fn table_rows(table: &Tensor, offset: usize, n: usize, dtype: DType) -> (r: Result<
    Tensor,
    ModelError,
>)
    requires
        dims(*table).len() == 2,
        fits(dims(*table)),
        offset + n <= dims(*table)[0],
        0 < n,
        0 < dims(*table)[1],
    ensures
        workable(*table) && storable(kind(dtype)) ==> r is Ok,
        r matches Err(e) ==> e is Backend,
        r matches Ok(t) ==> {
            &&& dims(t) == seq![1, n, 1, dims(*table)[1]]
            &&& element_type(t) == kind(dtype)
            &&& device_of(t) == device_of(*table)
            &&& convertible(element_type(*table), kind(dtype)) ==> forall|i: Seq<int>|
                inside(dims(t), i) ==> #[trigger] entries(t)[i] == table_entry(
                    *table,
                    kind(dtype),
                    offset + i[1],
                    i[3],
                )
        },
{
    let rows = match narrow(table, 0, offset, n) {
        Ok(t) => t,
        Err(e) => {
            return Err(ModelError::Backend(e));
        },
    };
    proof {
        assert forall|k: int| 0 <= k < dims(rows).len() implies #[trigger] dims(rows)[k] <= dims(
            *table,
        )[k] by {}
        lemma_room_monotone(dims(rows), dims(*table));
    }
    let cast = match to_dtype(&rows, dtype) {
        Ok(t) => t,
        Err(e) => {
            return Err(ModelError::Backend(e));
        },
    };
    let once = match unsqueeze(&cast, 0) {
        Ok(t) => t,
        Err(e) => {
            return Err(ModelError::Backend(e));
        },
    };
    match unsqueeze(&once, 2) {
        Ok(t) => {
            proof {
                let width = dims(*table)[1];
                assert(dims(rows) =~= seq![n, width]);
                assert(dims(once) =~= seq![1, n, width]);
                assert(dims(t) =~= seq![1, n, 1, width]);
                assert forall|i: Seq<int>|
                    inside(dims(t), i) && convertible(
                        element_type(*table),
                        kind(dtype),
                    ) implies #[trigger] entries(t)[i] == table_entry(
                    *table,
                    kind(dtype),
                    offset + i[1],
                    i[3],
                ) by {
                    assert(0 <= i[0] < 1 && 0 <= i[1] < n && 0 <= i[2] < 1 && 0 <= i[3] < width);
                    let j = i.remove(2);
                    assert(j =~= seq![i[0], i[1], i[3]]);
                    assert(inside(dims(once), j));
                    let m = j.remove(0);
                    assert(m =~= seq![i[1], i[3]]);
                    assert(inside(dims(cast), m));
                    assert(inside(dims(rows), m));
                    assert(m.update(0, m[0] + offset) =~= seq![offset + i[1], i[3]]);
                    assert(entries(once)[j] == entries(cast)[m]);
                }
            }
            Ok(t)
        },
        Err(e) => Err(ModelError::Backend(e)),
    }
}

/// Heads that go together with rows of a table have the dimensions of the heads.
proof fn lemma_rows_go_with_heads(x: Seq<usize>, rows: Seq<usize>, d: Seq<usize>)
    requires
        x.len() == 4,
        rows == seq![1, x[1], 1, x[3]],
        go_together(x, rows, d),
    ensures
        d == x,
{
    assert forall|k: int| 0 <= k < 4 implies #[trigger] d[k] == x[k] by {
        assert(spread(x, 4, k) == x[k]);
        assert(spread(rows, 4, k) == rows[k]);
    }
    assert(d =~= x);
}

/// The products of heads with rows of a table.
fn scaled(x: &Tensor, rows: &Tensor) -> (r: Result<Tensor, ModelError>)
    requires
        dims(*x).len() == 4,
        fits(dims(*x)),
        dims(*rows) == seq![1, dims(*x)[1], 1, dims(*x)[3]],
        forall|i: Seq<int>| #[trigger]
            inside(dims(*x), i) ==> holds(
                element_type(*x),
                times(
                    element_type(*x),
                    entries(*x)[i],
                    entries(*rows)[seq![0, i[1], 0, i[3]]],
                ),
            ),
    ensures
        workable(*x) && on_cpu(device_of(*rows)) && element_type(*rows) == element_type(*x)
            ==> r is Ok,
        r matches Err(e) ==> e is Backend,
        r matches Ok(t) ==> {
            &&& dims(t) == dims(*x)
            &&& alike(t, *x)
            &&& forall|i: Seq<int>|
                inside(dims(t), i) ==> #[trigger] entries(t)[i] == times(
                    element_type(*x),
                    entries(*x)[i],
                    entries(*rows)[seq![0, i[1], 0, i[3]]],
                )
        },
{
    proof {
        assert(go_together(dims(*x), dims(*rows), dims(*x))) by {
            assert forall|k: int| 0 <= k < 4 implies {
                &&& spread(dims(*x), 4, k) == #[trigger] dims(*x)[k]
                &&& spread(dims(*rows), 4, k) == dims(*rows)[k]
            } by {}
        }
        assert forall|d: Seq<usize>| #[trigger] go_together(
            dims(*x),
            dims(*rows),
            d,
        ) implies fits(d) by {
            lemma_rows_go_with_heads(dims(*x), dims(*rows), d);
        }
        assert forall|d: Seq<usize>, i: Seq<int>| #[trigger]
            go_together(dims(*x), dims(*rows), d) && #[trigger] inside(d, i) implies holds(
            element_type(*x),
            times(
                element_type(*x),
                entries(*x)[opposite(dims(*x), i)],
                entries(*rows)[opposite(dims(*rows), i)],
            ),
        ) by {
            lemma_rows_go_with_heads(dims(*x), dims(*rows), d);
            assert(0 <= i[0] < d[0] && 0 <= i[1] < d[1] && 0 <= i[2] < d[2] && 0 <= i[3] < d[3]);
            assert(opposite(dims(*x), i) =~= i);
            assert(opposite(dims(*rows), i) =~= seq![0, i[1], 0, i[3]]);
        }
    }
    match broadcast_mul(x, rows) {
        Ok(t) => {
            proof {
                let d = dims(t);
                lemma_rows_go_with_heads(dims(*x), dims(*rows), d);
                assert forall|i: Seq<int>| inside(dims(t), i) implies #[trigger] entries(t)[i]
                    == times(
                    element_type(*x),
                    entries(*x)[i],
                    entries(*rows)[seq![0, i[1], 0, i[3]]],
                ) by {
                    assert(0 <= i[0] < d[0] && 0 <= i[1] < d[1] && 0 <= i[2] < d[2] && 0 <= i[3]
                        < d[3]);
                    assert(opposite(dims(*x), i) =~= i);
                    assert(opposite(dims(*rows), i) =~= seq![0, i[1], 0, i[3]]);
                }
            }
            Ok(t)
        },
        Err(e) => Err(ModelError::Backend(e)),
    }
}

proof fn lemma_same_dims(a: Seq<usize>, i: Seq<int>)
    ensures
        inside(a, i) ==> opposite(a, i) == i,
        go_together(a, a, a),
        forall|d: Seq<usize>| #[trigger] go_together(a, a, d) ==> d == a,
{
    if inside(a, i) {
        assert forall|k: int| 0 <= k < a.len() implies #[trigger] opposite(a, i)[k] == i[k] by {
            assert(0 <= i[k] < a[k]);
        }
        assert(opposite(a, i) =~= i);
    }
    assert forall|d: Seq<usize>| #[trigger] go_together(a, a, d) implies d == a by {
        assert forall|k: int| 0 <= k < a.len() implies #[trigger] d[k] == a[k] by {
            assert(spread(a, a.len() as int, k) == a[k]);
        }
        assert(d =~= a);
    }
}

/// The sums of the elements of two tensors of the same dimensions.
fn added(a: &Tensor, b: &Tensor) -> (r: Result<Tensor, ModelError>)
    requires
        dims(*a) == dims(*b),
        fits(dims(*a)),
        forall|i: Seq<int>| #[trigger]
            inside(dims(*a), i) ==> holds(
                element_type(*a),
                plus(element_type(*a), entries(*a)[i], entries(*b)[i]),
            ),
    ensures
        workable(*a) && on_cpu(device_of(*b)) && element_type(*b) == element_type(*a) ==> r is Ok,
        r matches Err(e) ==> e is Backend,
        r matches Ok(t) ==> {
            &&& dims(t) == dims(*a)
            &&& alike(t, *a)
            &&& forall|i: Seq<int>|
                inside(dims(t), i) ==> #[trigger] entries(t)[i] == plus(
                    element_type(*a),
                    entries(*a)[i],
                    entries(*b)[i],
                )
        },
{
    proof {
        lemma_same_dims(dims(*a), seq![]);
        assert forall|d: Seq<usize>, i: Seq<int>| #[trigger]
            go_together(dims(*a), dims(*b), d) && #[trigger] inside(d, i) implies holds(
            element_type(*a),
            plus(
                element_type(*a),
                entries(*a)[opposite(dims(*a), i)],
                entries(*b)[opposite(dims(*b), i)],
            ),
        ) by {
            lemma_same_dims(dims(*a), i);
        }
    }
    match broadcast_add(a, b) {
        Ok(t) => {
            proof {
                assert forall|i: Seq<int>| inside(dims(t), i) implies #[trigger] entries(t)[i]
                    == plus(element_type(*a), entries(*a)[i], entries(*b)[i]) by {
                    lemma_same_dims(dims(*a), i);
                }
            }
            Ok(t)
        },
        Err(e) => Err(ModelError::Backend(e)),
    }
}

/// The differences of the elements of two tensors of the same dimensions.
fn subtracted(a: &Tensor, b: &Tensor) -> (r: Result<Tensor, ModelError>)
    requires
        dims(*a) == dims(*b),
        fits(dims(*a)),
        forall|i: Seq<int>| #[trigger]
            inside(dims(*a), i) ==> holds(
                element_type(*a),
                minus(element_type(*a), entries(*a)[i], entries(*b)[i]),
            ),
    ensures
        workable(*a) && on_cpu(device_of(*b)) && element_type(*b) == element_type(*a) ==> r is Ok,
        r matches Err(e) ==> e is Backend,
        r matches Ok(t) ==> {
            &&& dims(t) == dims(*a)
            &&& alike(t, *a)
            &&& forall|i: Seq<int>|
                inside(dims(t), i) ==> #[trigger] entries(t)[i] == minus(
                    element_type(*a),
                    entries(*a)[i],
                    entries(*b)[i],
                )
        },
{
    proof {
        lemma_same_dims(dims(*a), seq![]);
        assert forall|d: Seq<usize>, i: Seq<int>| #[trigger]
            go_together(dims(*a), dims(*b), d) && #[trigger] inside(d, i) implies holds(
            element_type(*a),
            minus(
                element_type(*a),
                entries(*a)[opposite(dims(*a), i)],
                entries(*b)[opposite(dims(*b), i)],
            ),
        ) by {
            lemma_same_dims(dims(*a), i);
        }
    }
    match broadcast_sub(a, b) {
        Ok(t) => {
            proof {
                assert forall|i: Seq<int>| inside(dims(t), i) implies #[trigger] entries(t)[i]
                    == minus(element_type(*a), entries(*a)[i], entries(*b)[i]) by {
                    lemma_same_dims(dims(*a), i);
                }
            }
            Ok(t)
        },
        Err(e) => Err(ModelError::Backend(e)),
    }
}

impl RoPE {
    /// The table of cosines.
    pub closed spec fn cosines(&self) -> Tensor {
        self.cos
    }

    /// The table of sines.
    pub closed spec fn sines(&self) -> Tensor {
        self.sin
    }

    /// The number of positions in the tables.
    pub closed spec fn positions(&self) -> nat {
        self.max_positions as nat
    }

    /// The size of a head.
    pub closed spec fn head(&self) -> nat {
        self.head_dim as nat
    }

    /// The tables have a row for each position, half as wide as a head.
    pub open spec fn wf(&self) -> bool {
        let shape = seq![self.positions() as usize, (self.head() / 2) as usize];
        &&& self.positions() <= usize::MAX
        &&& self.head() <= usize::MAX
        &&& dims(self.cosines()) == shape
        &&& dims(self.sines()) == shape
        &&& fits(shape)
    }

    /// Takes tables of cosines and sines for heads of size `head_dim`.
    pub fn with_tables(cos: Tensor, sin: Tensor, max_positions: usize, head_dim: usize) -> (r:
        Result<Self, ModelError>)
        ensures
            match r {
                Ok(rope) => {
                    &&& rope.wf()
                    &&& rope.cosines() == cos
                    &&& rope.sines() == sin
                    &&& rope.positions() == max_positions
                    &&& rope.head() == head_dim
                },
                Err(e) => {
                    let shape = seq![max_positions, head_dim / 2];
                    e is Rank && (dims(cos) != shape || dims(sin) != shape || !fits(shape))
                },
            },
    {
        let c = tensor_dims(&cos);
        let s = tensor_dims(&sin);
        let half = head_dim / 2;
        if c.len() != 2 || c[0] != max_positions || c[1] != half {
            return Err(ModelError::Rank);
        }
        if s.len() != 2 || s[0] != max_positions || s[1] != half {
            return Err(ModelError::Rank);
        }
        assert(c@ =~= seq![max_positions, half]);
        assert(s@ =~= seq![max_positions, half]);
        if !addressable(&c) {
            return Err(ModelError::Rank);
        }
        Ok(RoPE { cos, sin, max_positions, head_dim })
    }

    /// The tables lie on the processor, with elements of a type that it has.
    pub open spec fn ready(&self) -> bool {
        workable(self.cosines()) && workable(self.sines())
    }

    /// Whether the tables turn into a type in one way on every machine.
    pub open spec fn exact(&self, of: ElementType) -> bool {
        &&& convertible(element_type(self.cosines()), of)
        &&& convertible(element_type(self.sines()), of)
    }

    /// Whether heads can be turned from a position on: their positions can be counted, and
    /// integers do not become too large.
    pub open spec fn appliable(&self, x: Tensor, offset: int) -> bool {
        let half = self.head() as int / 2;
        &&& fits(dims(x))
        &&& dims(x).len() == 4 ==> offset + dims(x)[1] <= usize::MAX
        &&& dims(x).len() == 4 && dims(x)[3] == self.head() && offset + dims(x)[1]
            <= self.positions() ==> forall|i: Seq<int>| #[trigger]
            inside(dims(x).update(3, (2 * half) as usize), i) ==> turns_at(
                self.cosines(),
                self.sines(),
                x,
                offset,
                half,
                i,
            )
    }

    /// Whether `apply` can be called with these heads. Of integers it is not known.
    pub fn can_apply(&self, x: &Tensor, position_offset: usize) -> (r: bool)
        ensures
            r ==> self.appliable(*x, position_offset as int),
            floating(element_type(*x)) ==> r == self.appliable(*x, position_offset as int),
    {
        let shape = tensor_dims(x);
        addressable(&shape) && is_float(tensor_kind(x)) && (shape.len() != 4
            || position_offset.checked_add(shape[1]).is_some())
    }

    /// Turns the heads of `x`, of dimensions (B, T, H, D), of which the first position is
    /// position `position_offset` of the sequence.
    pub fn apply(&self, x: &Tensor, position_offset: usize) -> (r: Result<Tensor, ModelError>)
        requires
            self.wf(),
            self.appliable(*x, position_offset as int),
        ensures
            dims(*x).len() != 4 <==> r is Err && r->Err_0 is Rank,
            dims(*x).len() == 4 && dims(*x)[3] != self.head() <==> r is Err
                && r->Err_0 is HeadDim,
            dims(*x).len() == 4 && dims(*x)[3] == self.head() && position_offset + dims(*x)[1]
                > self.positions() <==> r is Err && r->Err_0 is Positions,
            r matches Err(e) ==> match e {
                ModelError::HeadDim(got, expected) => got == dims(*x)[3] && expected
                    == self.head(),
                ModelError::Positions(start, end, max) => start == position_offset && end
                    == position_offset + dims(*x)[1] && max == self.positions(),
                _ => e is Rank || e is Backend,
            },
            workable(*x) && self.ready() ==> (r is Ok <==> dims(*x).len() == 4 && dims(*x)[3]
                == self.head() && position_offset + dims(*x)[1] <= self.positions()),
            r matches Ok(y) ==> applied(*self, *x, position_offset as int, y),
            r matches Ok(y) ==> self.head() % 2 == 0 ==> dims(y) == dims(*x),
    {
        let shape = tensor_dims(x);
        if shape.len() != 4 {
            return Err(ModelError::Rank);
        }
        let seq_len = shape[1];
        let head_dim = shape[3];
        if head_dim != self.head_dim {
            return Err(ModelError::HeadDim(head_dim, self.head_dim));
        }
        if position_offset + seq_len > self.max_positions {
            return Err(
                ModelError::Positions(
                    position_offset,
                    position_offset + seq_len,
                    self.max_positions,
                ),
            );
        }
        let dtype = tensor_dtype(x);
        let half = head_dim / 2;
        let ghost turned_dims = dims(*x).update(3, (2 * half) as usize);
        let part = vec![shape[0], seq_len, shape[2], half + half];
        proof {
            assert(part@ =~= turned_dims);
            assert forall|k: int| 0 <= k < 4 implies #[trigger] part@[k] <= dims(*x)[k] by {}
            lemma_room_monotone(part@, dims(*x));
        }
        if !is_solid(&part) {
            let empty = blank(part, x)?;
            proof {
                assert forall|i: Seq<int>| !inside(dims(empty), i) by {
                    lemma_blank(dims(empty), i);
                }
                assert(turned_by(*x, *x, *x, half as int, empty));
            }
            return Ok(empty);
        }
        assert(0 < part@[0] && 0 < part@[1] && 0 < part@[2] && 0 < part@[3]);
        let cos = table_rows(&self.cos, position_offset, seq_len, dtype)?;
        let sin = table_rows(&self.sin, position_offset, seq_len, dtype)?;
        let x1 = match narrow(x, 3, 0, half) {
            Ok(t) => t,
            Err(e) => {
                return Err(ModelError::Backend(e));
            },
        };
        let x2 = match narrow(x, 3, half, half) {
            Ok(t) => t,
            Err(e) => {
                return Err(ModelError::Backend(e));
            },
        };
        proof {
            assert forall|k: int| 0 <= k < 4 implies #[trigger] dims(x1)[k] <= dims(*x)[k] by {}
            lemma_room_monotone(dims(x1), dims(*x));
            assert(dims(x2) =~= dims(x1));
            assert(solid(dims(x1)));
            let (t, d) = (element_type(*x), dims(*x));
            assert forall|j: Seq<int>| #[trigger] inside(dims(x1), j) implies {
                let other = j.update(3, j[3] + half);
                let cell = seq![0, j[1], 0, j[3]];
                let c = entries(cos)[cell];
                let s = entries(sin)[cell];
                let at = |i: Seq<int>|
                    products(self.cos, self.sin, *x, position_offset as int, half as int, i);
                &&& entries(x1)[j] == entries(*x)[j]
                &&& entries(x2)[j] == entries(*x)[other]
                &&& other.update(3, other[3] - half) == j
                &&& self.exact(t) ==> {
                    &&& at(j) == (times(t, entries(x1)[j], c), times(t, entries(x2)[j], s))
                    &&& at(other) == (times(t, entries(x2)[j], c), times(t, entries(x1)[j], s))
                }
                &&& turns_at(self.cos, self.sin, *x, position_offset as int, half as int, j)
                &&& turns_at(self.cos, self.sin, *x, position_offset as int, half as int, other)
            } by {
                assert(0 <= j[0] < d[0] && 0 <= j[1] < d[1] && 0 <= j[2] < d[2] && 0 <= j[3]
                    < half);
                let other = j.update(3, j[3] + half);
                let cell = seq![0, j[1], 0, j[3]];
                assert(inside(dims(cos), cell) && inside(dims(sin), cell));
                assert(j.update(3, j[3] + 0) =~= j);
                assert(inside(dims(x2), j));
                assert(other.update(3, other[3] - half) =~= j);
                assert(inside(turned_dims, j) && inside(turned_dims, other));
            }
        }
        let x1_cos = scaled(&x1, &cos)?;
        let x2_sin = scaled(&x2, &sin)?;
        let y1 = added(&x1_cos, &x2_sin)?;
        let x2_cos = scaled(&x2, &cos)?;
        let x1_sin = scaled(&x1, &sin)?;
        let y2 = subtracted(&x2_cos, &x1_sin)?;
        proof {
            let both = dims(y1).update(3, (half + half) as usize);
            assert forall|k: int| 0 <= k < 4 implies #[trigger] both[k] <= dims(*x)[k] by {}
            lemma_room_monotone(both, dims(*x));
        }
        match cat(&y1, &y2, 3) {
            Ok(y) => {
                proof {
                    let d = dims(*x);
                    assert(dims(y) =~= d.update(3, (2 * half) as usize));
                    let t = element_type(*x);
                    assert forall|i: Seq<int>| inside(dims(y), i) implies {
                        let j = if i[3] < half {
                            i
                        } else {
                            i.update(3, i[3] - half)
                        };
                        let cell = seq![0, j[1], 0, j[3]];
                        let (c, s) = (entries(cos)[cell], entries(sin)[cell]);
                        &&& inside(dims(x1), j)
                        &&& i == if i[3] < half {
                            j
                        } else {
                            j.update(3, j[3] + half)
                        }
                        &&& #[trigger] entries(y)[i] == if i[3] < half {
                            plus(t, times(t, entries(x1)[j], c), times(t, entries(x2)[j], s))
                        } else {
                            minus(t, times(t, entries(x2)[j], c), times(t, entries(x1)[j], s))
                        }
                    } by {
                        assert(0 <= i[0] < d[0] && 0 <= i[1] < d[1] && 0 <= i[2] < d[2] && 0
                            <= i[3] < 2 * half);
                        let j = if i[3] < half {
                            i
                        } else {
                            i.update(3, i[3] - half)
                        };
                        assert(inside(dims(x1), j));
                        assert(inside(dims(y1), j) && inside(dims(y2), j));
                        if i[3] >= half {
                            assert(j.update(3, j[3] + half) =~= i);
                            assert(entries(y)[i] == entries(y2)[j]);
                        } else {
                            assert(entries(y)[i] == entries(y1)[j]);
                        }
                    }
                    assert(turned_by(cos, sin, *x, half as int, y));
                }
                Ok(y)
            },
            Err(e) => Err(ModelError::Backend(e)),
        }
    }
}

} // verus!
