//! The shapes of attention: how projections are cut into heads, which keys and values
//! the heads of each position see, and how heads are put together again.
use candle_core::{Device, Tensor};
use vstd::prelude::*;

use super::gpt::GPTConfig;
use super::kv::{extended, kept, law_inserted_positions_follow, KVCache};
use super::rope::{applied, is_turned, law_pairs_of_fractions_are_rotated, RoPE};
use super::tensor::{
    addressable, alike, arange, blank, contiguous, count, device_of, difference, dims, element_count,
    element_type, entries, exchanged, fits, flat, floating, ge, inside, is_float, is_solid,
    lemma_blank, lemma_flat2, lemma_flat3, lemma_flat4, lemma_flat5, lemma_room_positive, narrowed,
    on_cpu, product, repeat, reshape, reshaped, room, solid, sum, tensor_device, tensor_dims,
    tensor_kind,
    transpose, unsqueeze, workable, wrapped,
};
use super::ModelError;

verus! {

/// Attention in which a position sees itself and the positions before it.
#[derive(Clone, Copy, Debug)]
pub struct CausalSelfAttention {
    pub n_head: usize,
    pub n_kv_head: usize,
    pub head_dim: usize,
    /// The number of heads that share a key/value head.
    pub kv_repeat: usize,
}

/// `y` has `times` copies of each head of `x`, next to each other.
pub open spec fn heads_repeated(x: Tensor, times: int, y: Tensor) -> bool {
    &&& alike(y, x)
    &&& dims(y).len() == 4
    &&& dims(y) == dims(x).update(1, (dims(x)[1] * times) as usize)
    &&& forall|i: Seq<int>|
        inside(dims(y), i) ==> #[trigger] entries(y)[i] == entries(x)[i.update(1, i[1] / times)]
}

/// Whether the query at position `past + row` sees the key at position `column`: 1 or 0.
pub open spec fn sees(past: int, row: int, column: int) -> int {
    if past + row >= column {
        1
    } else {
        0
    }
}

/// A query sees exactly the positions up to its own, wherever its sequence is cut.
pub proof fn law_queries_see_up_to_themselves(past: int, row: int, column: int)
    ensures
        sees(past, row, column) == 1 <==> column <= past + row,
        sees(past, row, column) == sees(0, past + row, column),
{
}

/// Keys that are put into a cache part by part are seen as they are without a cache.
pub proof fn law_cache_changes_nothing(
    whole: Tensor,
    rows: Tensor,
    pos: int,
    first: Tensor,
    first_rows: Tensor,
    buf: Tensor,
    second: Tensor,
    len: usize,
    all: Tensor,
)
    requires
        dims(whole).len() == 4,
        0 <= pos,
        pos + len == dims(whole)[1],
        heads_first(whole, rows),
        narrowed(whole, 1, 0, pos as usize, first),
        heads_first(first, first_rows),
        kept(first_rows, buf, pos),
        dims(buf).len() == 4,
        dims(buf)[0] == dims(whole)[0],
        dims(buf)[1] == dims(whole)[2],
        dims(buf)[2] >= pos,
        dims(buf)[3] == dims(whole)[3],
        narrowed(whole, 1, pos, len, second),
        followed_by(buf, pos, second, all),
    ensures
        dims(all) == dims(rows),
        forall|i: Seq<int>|
            inside(dims(all), i) ==> #[trigger] entries(all)[i] == entries(rows)[i],
{
    let d = dims(whole);
    let second_rows = choose|t: Tensor| #[trigger]
        heads_first(second, t) && extended(buf, t, pos, all);
    assert(dims(rows) =~= seq![d[0], d[2], d[1], d[3]]);
    assert(dims(second_rows) =~= seq![d[0], d[2], len, d[3]]);
    assert(dims(first_rows) =~= seq![d[0], d[2], pos as usize, d[3]]);
    assert(dims(all) =~= dims(rows));
    assert forall|i: Seq<int>| inside(dims(all), i) implies #[trigger] entries(all)[i] == entries(
        rows,
    )[i] by {
        assert(0 <= i[0] < d[0] && 0 <= i[1] < d[2] && 0 <= i[2] < d[1] && 0 <= i[3] < d[3]);
        assert(inside(dims(rows), i));
        let there = exchanged(i, 1, 2);
        assert(entries(rows)[i] == entries(whole)[there]);
        if i[2] < pos {
            assert(inside(dims(first_rows), i));
            assert(inside(dims(buf), i));
            assert(entries(buf)[i] == entries(first_rows)[i]);
            assert(inside(dims(first), there));
            assert(there.update(1, there[1] + 0) =~= there);
        } else {
            let j = i.update(2, i[2] - pos);
            assert(inside(dims(second_rows), j));
            let k = exchanged(j, 1, 2);
            assert(inside(dims(second), k));
            assert(k.update(1, k[1] + pos) =~= there);
        }
    }
}

/// A single query sees all keys, so that it needs no mask.
pub proof fn law_one_query_sees_all(past: int, column: int)
    requires
        column < past + 1,
    ensures
        sees(past, 0, column) == 1,
{
}

/// The dimensions of heads with copies, before the copies are counted as heads.
pub open spec fn copies_shape(d: Seq<usize>, times: usize) -> Seq<usize> {
    seq![d[0], d[1], times, d[2], d[3]]
}

/// With `times` copies each, head `h` of the copies is a copy of head `h / times`.
proof fn lemma_copy_place(
    b: int,
    h: int,
    s: int,
    e: int,
    heads: int,
    times: int,
    len: int,
    width: int,
)
    requires
        0 < times,
        0 <= h < heads * times,
    ensures
        0 <= h / times < heads,
        0 <= h % times < times,
        (((b * heads + h / times) * times + h % times) * len + s) * width + e == ((b * (heads
            * times) + h) * len + s) * width + e,
{
    vstd::arithmetic::div_mod::lemma_fundamental_div_mod(h, times);
    let (q, r) = (h / times, h % times);
    assert(0 <= q < heads && 0 <= r < times) by (nonlinear_arith)
        requires
            0 < times,
            0 <= h < heads * times,
            h == times * q + r,
            q == h / times,
            r == h % times,
    ;
    assert((b * heads + q) * times + r == b * (heads * times) + h) by (nonlinear_arith)
        requires
            h == times * q + r,
    ;
}

/// Whether heads of these dimensions can be copied `times` times.
pub open spec fn repeatable(d: Seq<usize>, times: usize) -> bool {
    &&& 0 < times
    &&& d.len() == 4 ==> d[1] * times <= usize::MAX && fits(copies_shape(d, times))
}

/// Whether `repeat_kv` can be called with these heads.
pub fn can_repeat(xs: &Tensor, times: usize) -> (r: bool)
    ensures
        r == repeatable(dims(*xs), times),
{
    let d = tensor_dims(xs);
    if times == 0 {
        return false;
    }
    if d.len() != 4 {
        return true;
    }
    let shape = vec![d[0], d[1], times, d[2], d[3]];
    assert(shape@ =~= copies_shape(d@, times));
    d[1].checked_mul(times).is_some() && addressable(&shape)
}

/// Copies each head of `xs`, of dimensions (B, H, T, D), `times` times.
pub fn repeat_kv(xs: &Tensor, times: usize) -> (r: Result<Tensor, ModelError>)
    requires
        repeatable(dims(*xs), times),
    ensures
        workable(*xs) && dims(*xs).len() == 4 ==> r is Ok,
        times == 1 ==> r is Ok && r->Ok_0 == *xs,
        times != 1 && dims(*xs).len() != 4 <==> r is Err && r->Err_0 is Rank,
        r matches Err(e) ==> e is Rank || e is Backend,
        r matches Ok(y) ==> dims(*xs).len() == 4 ==> heads_repeated(*xs, times as int, y),
{
    if times == 1 {
        proof {
            if dims(*xs).len() == 4 {
                assert(dims(*xs) =~= dims(*xs).update(1, (dims(*xs)[1] * 1) as usize));
                assert forall|i: Seq<int>| inside(dims(*xs), i) implies #[trigger] entries(*xs)[i]
                    == entries(*xs)[i.update(1, i[1] / 1)] by {
                    assert(i.update(1, i[1] / 1) =~= i);
                }
            }
        }
        return Ok(xs.clone());
    }
    let d = tensor_dims(xs);
    if d.len() != 4 {
        return Err(ModelError::Rank);
    }
    let heads = d[1] * times;
    proof {
        lemma_copies_room(d@, times);
    }
    if !is_solid(&d) {
        proof {
            let k = choose|k: int| 0 <= k < d@.len() && !(0 < #[trigger] d@[k]);
            let wide = seq![d[0], heads, d[2], d[3]];
            assert(0 * times == 0) by (nonlinear_arith);
            assert(wide[k] == 0);
        }
        let empty = blank(vec![d[0], heads, d[2], d[3]], xs)?;
        proof {
            assert(dims(empty) =~= d@.update(1, heads));
            assert forall|i: Seq<int>| inside(dims(empty), i) implies #[trigger] entries(empty)[i]
                == entries(*xs)[i.update(1, i[1] / times as int)] by {
                lemma_blank(dims(empty), i);
            }
        }
        return Ok(empty);
    }
    let apart = match unsqueeze(xs, 2) {
        Ok(t) => t,
        Err(e) => {
            return Err(ModelError::Backend(e));
        },
    };
    let counts = vec![1, 1, times, 1, 1];
    proof {
        assert(counts@ =~= seq![1, 1, times, 1, 1]);
        assert(dims(apart) =~= seq![d[0], d[1], 1, d[2], d[3]]);
        assert(0 < d@[0] && 0 < d@[1] && 0 < d@[2] && 0 < d@[3]);
        let wide = Seq::new(counts@.len(), |k: int| (dims(apart)[k] * counts@[k]) as usize);
        assert(d[0] * 1 == d[0] && d[1] * 1 == d[1] && d[2] * 1 == d[2] && d[3] * 1 == d[3] && 1
            * times == times) by (nonlinear_arith);
        assert(wide[0] == d[0] && wide[1] == d[1] && wide[2] == times && wide[3] == d[2] && wide[4]
            == d[3]);
        assert(wide =~= copies_shape(d@, times));
    }
    let copies = match repeat(&apart, counts) {
        Ok(t) => t,
        Err(e) => {
            return Err(ModelError::Backend(e));
        },
    };
    proof {
        assert(dims(copies)[0] == dims(apart)[0] * counts@[0]);
        assert(dims(copies)[1] == dims(apart)[1] * counts@[1]);
        assert(dims(copies)[2] == dims(apart)[2] * counts@[2]);
        assert(dims(copies)[3] == dims(apart)[3] * counts@[3]);
        assert(dims(copies)[4] == dims(apart)[4] * counts@[4]);
        assert(dims(copies) =~= copies_shape(d@, times));
    }
    match reshape(&copies, vec![d[0], heads, d[2], d[3]]) {
        Ok(y) => {
            proof {
                let shape = seq![d[0], heads, d[2], d[3]];
                assert(dims(y) =~= shape);
                assert(dims(y) =~= d@.update(1, heads));
                assert forall|i: Seq<int>| inside(dims(y), i) implies #[trigger] entries(y)[i]
                    == entries(*xs)[i.update(1, i[1] / times as int)] by {
                    assert(0 <= i[0] < d[0] && 0 <= i[1] < heads && 0 <= i[2] < d[2] && 0 <= i[3]
                        < d[3]);
                    let (q, r) = (i[1] / times as int, i[1] % times as int);
                    lemma_copy_place(
                        i[0],
                        i[1],
                        i[2],
                        i[3],
                        d[1] as int,
                        times as int,
                        d[2] as int,
                        d[3] as int,
                    );
                    let j = seq![i[0], q, r, i[2], i[3]];
                    assert(inside(dims(copies), j));
                    lemma_flat4(shape, i);
                    lemma_flat5(dims(copies), j);
                    assert(entries(y)[i] == entries(copies)[j]);
                    let m = seq![i[0], q, 0, i[2], i[3]];
                    assert(wrapped(dims(apart), j) =~= m) by {
                        assert(r % 1 == 0);
                        vstd::arithmetic::div_mod::lemma_small_mod(i[0] as nat, d[0] as nat);
                        vstd::arithmetic::div_mod::lemma_small_mod(q as nat, d[1] as nat);
                        vstd::arithmetic::div_mod::lemma_small_mod(i[2] as nat, d[2] as nat);
                        vstd::arithmetic::div_mod::lemma_small_mod(i[3] as nat, d[3] as nat);
                    }
                    assert(inside(dims(apart), m));
                    assert(entries(copies)[j] == entries(apart)[m]);
                    assert(m.remove(2) =~= i.update(1, q));
                    assert(entries(apart)[m] == entries(*xs)[m.remove(2)]);
                }
            }
            Ok(y)
        },
        Err(e) => Err(ModelError::Backend(e)),
    }
}

/// Counting the copies as heads takes no more room.
proof fn lemma_copies_room(d: Seq<usize>, times: usize)
    requires
        d.len() == 4,
        0 < times,
        d[1] * times <= usize::MAX,
        fits(copies_shape(d, times)),
    ensures
        fits(seq![d[0], (d[1] * times) as usize, d[2], d[3]]),
        solid(d) ==> solid(seq![d[0], (d[1] * times) as usize, d[2], d[3]]),
        solid(d) ==> room(seq![d[0], (d[1] * times) as usize, d[2], d[3]]) == room(
            copies_shape(d, times),
        ),
{
    let one = |n: int| -> int {
        if n == 0 {
            1
        } else {
            n
        }
    };
    let apart = copies_shape(d, times);
    let flat4 = seq![d[0], (d[1] * times) as usize, d[2], d[3]];
    reveal_with_fuel(room, 6);
    assert(apart.drop_last() =~= seq![d[0], d[1], times, d[2]]);
    assert(seq![d[0], d[1], times, d[2]].drop_last() =~= seq![d[0], d[1], times]);
    assert(seq![d[0], d[1], times].drop_last() =~= seq![d[0], d[1]]);
    assert(flat4.drop_last() =~= seq![d[0], (d[1] * times) as usize, d[2]]);
    assert(seq![d[0], (d[1] * times) as usize, d[2]].drop_last() =~= seq![
        d[0],
        (d[1] * times) as usize,
    ]);
    assert(seq![d[0], d[1]].drop_last() =~= seq![d[0]]);
    assert(seq![d[0], (d[1] * times) as usize].drop_last() =~= seq![d[0]]);
    let a = room(seq![d[0]]) as int;
    let (h, s, w) = (one(d[1] as int), one(d[2] as int), one(d[3] as int));
    let wide = one(d[1] * times);
    assert(wide <= h * times) by (nonlinear_arith)
        requires
            times >= 1,
            d[1] * times == 0 ==> wide == 1,
            d[1] * times != 0 ==> wide == d[1] * times,
            d[1] == 0 ==> h == 1,
            d[1] != 0 ==> h == d[1],
    ;
    if solid(d) {
        assert(0 < d[0] && 0 < d[1] && 0 < d[2] && 0 < d[3]);
        assert(0 < d[1] * times) by (nonlinear_arith)
            requires
                0 < d[1],
                0 < times,
        ;
        assert(a * (d[1] * times) == a * d[1] * times) by (nonlinear_arith);
    }
    assert(room(apart) == a * h * times * s * w);
    assert(room(flat4) == a * wide * s * w);
    assert(a * wide * s * w <= a * h * times * s * w) by (nonlinear_arith)
        requires
            0 <= a,
            wide <= h * times,
            0 <= s,
            0 <= w,
            0 <= wide,
    {
        assert(a * wide <= a * (h * times));
        assert(a * (h * times) == a * h * times);
        assert((a * wide) * s <= (a * h * times) * s);
        assert(((a * wide) * s) * w <= ((a * h * times) * s) * w);
    }
}

proof fn lemma_room2(a: usize, b: usize)
    ensures
        room(seq![a, b]) == (if a == 0 { 1 } else { a as int }) * (if b == 0 {
            1
        } else {
            b as int
        }),
        room(seq![a]) == (if a == 0 { 1 } else { a as int }),
        a <= room(seq![a, b]),
        b <= room(seq![a, b]),
{
    reveal_with_fuel(room, 3);
    assert(seq![a, b].drop_last() =~= seq![a]);
    assert(seq![a].drop_last() =~= seq![]);
    let x: int = if a == 0 {
        1
    } else {
        a as int
    };
    let y: int = if b == 0 {
        1
    } else {
        b as int
    };
    assert(1 * x == x) by (nonlinear_arith);
    assert(x <= x * y && y <= x * y) by (nonlinear_arith)
        requires
            x >= 1,
            y >= 1,
    ;
}

/// A grid with a row for each query and a column for each key: 1 where the query sees
/// the key.
pub fn build_causal_mask(device: &Device, past_len: usize, seq_len: usize, total_len: usize) -> (r:
    Result<Tensor, ModelError>)
    requires
        past_len + seq_len <= u32::MAX,
        total_len <= u32::MAX,
        0 < seq_len,
        0 < total_len,
        fits(seq![seq_len, total_len]),
    ensures
        on_cpu(*device) ==> r is Ok,
        r matches Err(e) ==> e is Backend,
        r matches Ok(t) ==> {
            &&& dims(t) == seq![seq_len, total_len]
            &&& device_of(t) == *device
            &&& element_type(t) is U8
            &&& forall|i: Seq<int>|
                inside(dims(t), i) ==> #[trigger] entries(t)[i] == sees(past_len as int, i[0], i[1])
        },
{
    proof {
        lemma_room2(seq_len, total_len);
        lemma_room2(seq_len, 1);
        lemma_room2(1, total_len);
        lemma_room2(total_len, 1);
        assert(seq_len * 1 == seq_len && 1 * total_len == total_len) by (nonlinear_arith);
    }
    let start: u32 = past_len as u32;
    let end: u32 = (past_len + seq_len) as u32;
    let queries = match arange(start, end, device) {
        Ok(t) => t,
        Err(e) => {
            return Err(ModelError::Backend(e));
        },
    };
    assert(dims(queries) =~= seq![seq_len]);
    let query_column = match reshape(&queries, vec![seq_len, 1]) {
        Ok(t) => t,
        Err(e) => {
            return Err(ModelError::Backend(e));
        },
    };
    let keys = match arange(0, total_len as u32, device) {
        Ok(t) => t,
        Err(e) => {
            return Err(ModelError::Backend(e));
        },
    };
    assert(dims(keys) =~= seq![total_len]);
    let key_row = match reshape(&keys, vec![1, total_len]) {
        Ok(t) => t,
        Err(e) => {
            return Err(ModelError::Backend(e));
        },
    };
    let across = vec![1, total_len];
    let down = vec![seq_len, 1];
    proof {
        assert(across@ =~= seq![1, total_len]);
        assert(down@ =~= seq![seq_len, 1]);
        assert(dims(query_column) =~= seq![seq_len, 1]);
        assert(dims(key_row) =~= seq![1, total_len]);
        let wide = Seq::new(across@.len(), |k: int| (dims(query_column)[k] * across@[k]) as usize);
        assert(seq_len * 1 == seq_len && 1 * total_len == total_len) by (nonlinear_arith);
        assert(wide[0] == seq_len && wide[1] == total_len);
        assert(wide =~= seq![seq_len, total_len]);
        let tall = Seq::new(down@.len(), |k: int| (dims(key_row)[k] * down@[k]) as usize);
        assert(1 * seq_len == seq_len && total_len * 1 == total_len) by (nonlinear_arith);
        assert(tall[0] == seq_len && tall[1] == total_len);
        assert(tall =~= seq![seq_len, total_len]);
    }
    let q_grid = match repeat(&query_column, across) {
        Ok(t) => t,
        Err(e) => {
            return Err(ModelError::Backend(e));
        },
    };
    let k_grid = match repeat(&key_row, down) {
        Ok(t) => t,
        Err(e) => {
            return Err(ModelError::Backend(e));
        },
    };
    proof {
        assert(dims(q_grid)[0] == dims(query_column)[0] * across@[0]);
        assert(dims(q_grid)[1] == dims(query_column)[1] * across@[1]);
        assert(dims(q_grid) =~= seq![seq_len, total_len]);
        assert(dims(k_grid)[0] == dims(key_row)[0] * down@[0]);
        assert(dims(k_grid)[1] == dims(key_row)[1] * down@[1]);
        assert(dims(k_grid) =~= seq![seq_len, total_len]);
    }
    match ge(&q_grid, &k_grid) {
        Ok(t) => {
            proof {
                assert forall|i: Seq<int>| inside(dims(t), i) implies #[trigger] entries(t)[i]
                    == sees(past_len as int, i[0], i[1]) by {
                    assert(0 <= i[0] < seq_len && 0 <= i[1] < total_len);
                    assert(inside(dims(q_grid), i) && inside(dims(k_grid), i));
                    vstd::arithmetic::div_mod::lemma_small_mod(i[0] as nat, seq_len as nat);
                    vstd::arithmetic::div_mod::lemma_small_mod(i[1] as nat, total_len as nat);
                    let q = seq![i[0], 0];
                    let k = seq![0, i[1]];
                    assert(wrapped(dims(query_column), i) =~= q) by {
                        assert(i[1] % 1 == 0);
                    }
                    assert(wrapped(dims(key_row), i) =~= k) by {
                        assert(i[0] % 1 == 0);
                    }
                    assert(inside(dims(query_column), q) && inside(dims(key_row), k));
                    lemma_flat2(dims(query_column), q);
                    lemma_flat2(dims(key_row), k);
                    lemma_flat1(dims(queries), seq![i[0]]);
                    lemma_flat1(dims(keys), seq![i[1]]);
                    assert(i[0] * 1 == i[0] && 0 * total_len == 0) by (nonlinear_arith);
                    assert(inside(dims(queries), seq![i[0]]) && inside(dims(keys), seq![i[1]]));
                    assert(entries(query_column)[q] == entries(queries)[seq![i[0]]]);
                    assert(entries(key_row)[k] == entries(keys)[seq![i[1]]]);
                }
            }
            Ok(t)
        },
        Err(e) => Err(ModelError::Backend(e)),
    }
}

proof fn lemma_flat1(d: Seq<usize>, i: Seq<int>)
    requires
        d.len() == 1,
        i.len() == 1,
    ensures
        flat(d, i) == i[0],
{
    reveal_with_fuel(flat, 2);
    assert(0 * d[0] == 0) by (nonlinear_arith);
}

proof fn lemma_room4_exchanged(d: Seq<usize>)
    requires
        d.len() == 4,
    ensures
        room(exchanged(d, 1, 2)) == room(d),
{
    let e = exchanged(d, 1, 2);
    reveal_with_fuel(room, 5);
    assert(d.drop_last().drop_last() =~= seq![d[0], d[1]]);
    assert(e.drop_last().drop_last() =~= seq![d[0], d[2]]);
    assert(seq![d[0], d[1]].drop_last() =~= seq![d[0]]);
    assert(seq![d[0], d[2]].drop_last() =~= seq![d[0]]);
    let a = room(seq![d[0]]);
    let b: nat = if d[1] == 0 {
        1
    } else {
        d[1] as nat
    };
    let c: nat = if d[2] == 0 {
        1
    } else {
        d[2] as nat
    };
    assert(a * b * c == a * c * b) by (nonlinear_arith);
}

/// `y` is `x` with the second and third dimensions exchanged.
pub open spec fn heads_first(x: Tensor, y: Tensor) -> bool {
    &&& alike(y, x)
    &&& dims(y) == exchanged(dims(x), 1, 2)
    &&& forall|i: Seq<int>|
        inside(dims(y), i) ==> #[trigger] entries(y)[i] == entries(x)[exchanged(i, 1, 2)]
}

/// Exchanges positions and heads, and lays the elements out one after the other.
fn by_heads(x: &Tensor) -> (r: Result<Tensor, ModelError>)
    requires
        dims(*x).len() == 4,
        fits(dims(*x)),
    ensures
        workable(*x) ==> r is Ok,
        r matches Err(e) ==> e is Backend,
        r matches Ok(y) ==> heads_first(*x, y),
{
    let d = tensor_dims(x);
    proof {
        lemma_room4_exchanged(dims(*x));
    }
    if !is_solid(&d) {
        let swapped = vec![d[0], d[2], d[1], d[3]];
        proof {
            let k = choose|k: int| 0 <= k < d@.len() && !(0 < #[trigger] d@[k]);
            assert(swapped@ =~= exchanged(d@, 1, 2));
            let there: int = if k == 1 {
                2
            } else if k == 2 {
                1
            } else {
                k
            };
            assert(!(0 < swapped@[there]));
        }
        let empty = blank(swapped, x)?;
        proof {
            assert forall|i: Seq<int>| inside(dims(empty), i) implies #[trigger] entries(empty)[i]
                == entries(*x)[exchanged(i, 1, 2)] by {
                lemma_blank(dims(empty), i);
            }
        }
        return Ok(empty);
    }
    let turned = match transpose(x, 1, 2) {
        Ok(t) => t,
        Err(e) => {
            return Err(ModelError::Backend(e));
        },
    };
    proof {
        assert(0 < d@[0] && 0 < d@[1] && 0 < d@[2] && 0 < d@[3]);
    }
    match contiguous(&turned) {
        Ok(t) => Ok(t),
        Err(e) => Err(ModelError::Backend(e)),
    }
}

/// `y` is a projection `x` cut into heads, in row-major order: where the projection has an
/// element for each element of a position's heads, head `h` of a position is the `h`-th
/// stretch, `width` long, of the position's projection.
pub open spec fn cut(x: Tensor, b: usize, t: usize, heads: usize, width: usize, y: Tensor) -> bool {
    &&& reshaped(x, seq![b, t, heads, width], y)
    &&& dims(x) == seq![b, t, (heads * width) as usize] && heads * width <= usize::MAX
        ==> forall|i: Seq<int>|
        inside(dims(y), i) ==> #[trigger] entries(y)[i] == entries(x)[seq![
            i[0],
            i[1],
            i[2] * width + i[3],
        ]]
}

/// Element `e` of head `h` is element `h * width + e` of the projection.
proof fn lemma_head_place(
    b: int,
    t: int,
    h: int,
    e: int,
    len: int,
    heads: int,
    width: int,
)
    requires
        0 <= h < heads,
        0 <= e < width,
    ensures
        0 <= h * width + e < heads * width,
        ((b * len + t) * heads + h) * width + e == (b * len + t) * (heads * width) + (h * width
            + e),
{
    assert(0 <= h * width + e < heads * width) by (nonlinear_arith)
        requires
            0 <= h < heads,
            0 <= e < width,
    {
        assert((h + 1) * width <= heads * width);
        assert(h * width + width == (h + 1) * width);
    }
    let p = b * len + t;
    assert((p * heads + h) * width + e == p * (heads * width) + (h * width + e))
        by (nonlinear_arith);
}

/// Cuts a projection, of dimensions (B, T, H * D), into heads.
fn cut_heads(x: &Tensor, b: usize, t: usize, heads: usize, width: usize) -> (r: Result<
    Tensor,
    ModelError,
>)
    requires
        fits(dims(*x)),
        fits(seq![b, t, heads, width]),
    ensures
        count(dims(*x)) != count(seq![b, t, heads, width]) <==> r is Err && r->Err_0 is Shape,
        workable(*x) && count(dims(*x)) == count(seq![b, t, heads, width]) ==> r is Ok,
        r matches Err(e) ==> e is Shape || e is Backend,
        r matches Ok(y) ==> cut(*x, b, t, heads, width, y),
{
    let shape = vec![b, t, heads, width];
    assert(shape@ =~= seq![b, t, heads, width]);
    let d = tensor_dims(x);
    if element_count(&d) != element_count(&shape) {
        return Err(ModelError::Shape);
    }
    proof {
        lemma_room_positive(d@);
        lemma_room_positive(shape@);
    }
    if !is_solid(&d) {
        let empty = blank(shape, x)?;
        proof {
            assert forall|i: Seq<int>| !inside(dims(empty), i) by {
                lemma_blank(dims(empty), i);
            }
        }
        return Ok(empty);
    }
    match reshape(x, vec![b, t, heads, width]) {
        Ok(y) => {
            proof {
                let shape = seq![b, t, heads, width];
                assert(dims(y) =~= shape);
                if dims(*x) == seq![b, t, (heads * width) as usize] && heads * width
                    <= usize::MAX {
                    assert forall|i: Seq<int>| inside(dims(y), i) implies #[trigger] entries(y)[i]
                        == entries(*x)[seq![i[0], i[1], i[2] * width + i[3]]] by {
                        assert(0 <= i[0] < b && 0 <= i[1] < t && 0 <= i[2] < heads && 0 <= i[3]
                            < width);
                        lemma_head_place(
                            i[0],
                            i[1],
                            i[2],
                            i[3],
                            t as int,
                            heads as int,
                            width as int,
                        );
                        let j = seq![i[0], i[1], i[2] * width + i[3]];
                        assert(inside(dims(*x), j));
                        lemma_flat4(shape, i);
                        lemma_flat3(dims(*x), j);
                    }
                }
            }
            Ok(y)
        },
        Err(e) => Err(ModelError::Backend(e)),
    }
}

/// `y` is the heads of `x`, of dimensions (B, H, T, D), put together again: element `e`
/// of head `h` is element `h * width + e` of the position.
pub open spec fn joined_heads(x: Tensor, y: Tensor) -> bool {
    let d = dims(x);
    &&& alike(y, x)
    &&& dims(y) == seq![d[0], d[2], (d[1] * d[3]) as usize]
    &&& forall|b: int, h: int, t: int, e: int|
        0 <= b < d[0] && 0 <= h < d[1] && 0 <= t < d[2] && 0 <= e < d[3] ==> entries(
            y,
        )[#[trigger] seq![b, t, h * d[3] + e]] == entries(x)[#[trigger] seq![b, h, t, e]]
}

/// Whether heads of these dimensions can be put together again.
pub open spec fn mergeable(d: Seq<usize>) -> bool {
    &&& fits(d)
    &&& d.len() == 4 ==> d[1] * d[3] <= usize::MAX && fits(
        seq![d[0], d[2], (d[1] * d[3]) as usize],
    )
}

/// Whether `merge_heads` can be called with these heads.
pub fn can_merge(context: &Tensor) -> (r: bool)
    ensures
        r == mergeable(dims(*context)),
{
    let d = tensor_dims(context);
    if !addressable(&d) {
        return false;
    }
    if d.len() != 4 {
        return true;
    }
    match d[1].checked_mul(d[3]) {
        Some(width) => {
            let shape = vec![d[0], d[2], width];
            assert(shape@ =~= seq![d[0], d[2], width]);
            addressable(&shape)
        },
        None => false,
    }
}

/// Putting heads together leaves the number of elements as it is.
proof fn lemma_room_joined(b: usize, t: usize, h: usize, d: usize)
    requires
        0 < b,
        0 < t,
        0 < h,
        0 < d,
        h * d <= usize::MAX,
    ensures
        solid(seq![b, t, h, d]),
        solid(seq![b, t, (h * d) as usize]),
        room(seq![b, t, h, d]) == room(seq![b, t, (h * d) as usize]),
{
    assert(0 < h * d) by (nonlinear_arith)
        requires
            0 < h,
            0 < d,
    ;
    reveal_with_fuel(room, 3);
    assert(seq![b, t, h, d].drop_last() =~= seq![b, t, h]);
    assert(seq![b, t, h].drop_last() =~= seq![b, t]);
    assert(seq![b, t, (h * d) as usize].drop_last() =~= seq![b, t]);
    let a = room(seq![b, t]);
    assert(a * h * d == a * (h * d)) by (nonlinear_arith);
}

/// Puts heads, of dimensions (B, H, T, D), together again.
pub fn merge_heads(context: &Tensor) -> (r: Result<Tensor, ModelError>)
    requires
        mergeable(dims(*context)),
    ensures
        dims(*context).len() != 4 <==> r is Err && r->Err_0 is Rank,
        r matches Err(e) ==> e is Rank || e is Backend,
        workable(*context) && dims(*context).len() == 4 ==> r is Ok,
        r matches Ok(y) ==> joined_heads(*context, y),
{
    let d = tensor_dims(context);
    if d.len() != 4 {
        return Err(ModelError::Rank);
    }
    if !is_solid(&d) {
        let shape = vec![d[0], d[2], d[1] * d[3]];
        proof {
            assert(shape@ =~= seq![d[0], d[2], (d[1] * d[3]) as usize]);
            let k = choose|k: int| 0 <= k < d@.len() && !(0 < #[trigger] d@[k]);
            if k == 1 || k == 3 {
                assert(d[1] * d[3] == 0) by (nonlinear_arith)
                    requires
                        d[1] == 0 || d[3] == 0,
                ;
                assert(!(0 < shape@[2]));
            } else {
                assert(!(0 < shape@[if k == 0 { 0 } else { 1 }]));
            }
        }
        let empty = blank(shape, context)?;
        proof {
            let k = choose|k: int| 0 <= k < d@.len() && !(0 < #[trigger] d@[k]);
            assert(d@[k] == 0);
        }
        return Ok(empty);
    }
    let rows = by_heads(context)?;
    proof {
        assert(0 < d@[0] && 0 < d@[1] && 0 < d@[2] && 0 < d@[3]);
        lemma_room4_exchanged(dims(*context));
        assert(dims(rows) =~= seq![d[0], d[2], d[1], d[3]]);
        lemma_room_joined(d[0], d[2], d[1], d[3]);
    }
    match reshape(&rows, vec![d[0], d[2], d[1] * d[3]]) {
        Ok(y) => {
            proof {
                let shape = seq![d[0], d[2], (d[1] * d[3]) as usize];
                assert(dims(y) =~= shape);
                assert(dims(rows) =~= seq![d[0], d[2], d[1], d[3]]);
                assert forall|b: int, h: int, t: int, e: int|
                    0 <= b < d[0] && 0 <= h < d[1] && 0 <= t < d[2] && 0 <= e < d[3] implies entries(
                    y,
                )[#[trigger] seq![b, t, h * d[3] + e]] == entries(
                    *context,
                )[#[trigger] seq![b, h, t, e]] by {
                    lemma_head_place(b, t, h, e, d[2] as int, d[1] as int, d[3] as int);
                    let i = seq![b, t, h * d[3] + e];
                    let j = seq![b, t, h, e];
                    assert(inside(shape, i) && inside(dims(rows), j));
                    lemma_flat3(shape, i);
                    lemma_flat4(dims(rows), j);
                    assert(entries(y)[i] == entries(rows)[j]);
                    assert(exchanged(j, 1, 2) =~= seq![b, h, t, e]);
                }
            }
            Ok(y)
        },
        Err(e) => Err(ModelError::Backend(e)),
    }
}

/// What attention works on: the queries, the keys and values that they see, all of
/// dimensions (B, H, ., D), and which query sees which key, where that is not all.
pub struct AttentionInput {
    pub q: Tensor,
    pub k: Tensor,
    pub v: Tensor,
    pub mask: Option<Tensor>,
}

/// `all` is what `buf` holds of the first `pos` positions, followed by `added`, whose
/// dimensions are (B, T, H, D).
pub open spec fn followed_by(buf: Tensor, pos: int, added: Tensor, all: Tensor) -> bool {
    exists|rows: Tensor| #[trigger]
        heads_first(added, rows) && extended(buf, rows, pos, all)
}

/// There is a mask if there is more than one query, and it shows which query, of those
/// from position `past` on, sees which key.
pub open spec fn masks(mask: Option<Tensor>, past: int, queries: usize, keys: usize) -> bool {
    match mask {
        None => queries <= 1,
        Some(m) => {
            &&& queries > 1
            &&& element_type(m) is U8
            &&& dims(m) == seq![1, 1, queries, keys]
            &&& forall|i: Seq<int>|
                inside(dims(m), i) ==> #[trigger] entries(m)[i] == sees(past, i[2], i[3])
        },
    }
}

/// `a` is queries, keys and values, each of dimensions (B, T, H, D), put together for
/// attention within one sequence.
pub open spec fn gathered(times: int, q: Tensor, k: Tensor, v: Tensor, a: AttentionInput) -> bool {
    &&& heads_first(q, a.q)
    &&& exists|rows: Tensor| #[trigger] heads_first(k, rows) && heads_repeated(rows, times, a.k)
    &&& exists|rows: Tensor| #[trigger] heads_first(v, rows) && heads_repeated(rows, times, a.v)
    &&& dims(k)[1] == dims(q)[1]
    &&& masks(a.mask, 0, dims(q)[1], dims(k)[1])
}

/// `a` and `b` agree at the first `n` places along dimension `dim`.
pub open spec fn agree(a: Tensor, b: Tensor, dim: int, n: int) -> bool {
    &&& alike(a, b)
    &&& dims(a) == dims(b)
    &&& forall|i: Seq<int>|
        inside(dims(a), i) && i[dim] < n ==> #[trigger] entries(a)[i] == entries(b)[i]
}

/// The heads of a position depend on the projection of that position alone: projections
/// that agree at the first `n` positions have heads, turned or not, that agree there.
pub proof fn law_heads_depend_on_their_position(
    rope: RoPE,
    offset: int,
    batch: usize,
    seq_len: usize,
    heads: usize,
    x: (Tensor, Tensor),
    cuts: (Tensor, Tensor),
    turned: (Tensor, Tensor),
    n: int,
)
    requires
        rope.head() <= usize::MAX,
        heads * rope.head() <= usize::MAX,
        dims(x.0) == seq![batch, seq_len, (heads * rope.head()) as usize],
        agree(x.0, x.1, 1, n),
        cut(x.0, batch, seq_len, heads, rope.head() as usize, cuts.0),
        cut(x.1, batch, seq_len, heads, rope.head() as usize, cuts.1),
        is_turned(rope, cuts.0, offset, turned.0),
        is_turned(rope, cuts.1, offset, turned.1),
    ensures
        agree(cuts.0, cuts.1, 1, n),
        agree(turned.0, turned.1, 1, n),
{
    let width = rope.head() as usize;
    let half = rope.head() as int / 2;
    let d = dims(cuts.0);
    assert forall|i: Seq<int>| inside(d, i) && i[1] < n implies #[trigger] entries(cuts.0)[i]
        == entries(cuts.1)[i] by {
        assert(0 <= i[0] < batch && 0 <= i[1] < seq_len && 0 <= i[2] < heads && 0 <= i[3] < width);
        lemma_head_place(i[0], i[1], i[2], i[3], seq_len as int, heads as int, width as int);
        let j = seq![i[0], i[1], i[2] * width + i[3]];
        assert(inside(dims(x.0), j));
        assert(entries(x.0)[j] == entries(x.1)[j]);
    }
    assert forall|i: Seq<int>| inside(dims(turned.0), i) && i[1] < n implies #[trigger] entries(
        turned.0,
    )[i] == entries(turned.1)[i] by {
        assert(0 <= i[0] < batch && 0 <= i[1] < seq_len && 0 <= i[2] < heads && 0 <= i[3] < 2
            * half);
        let other = if i[3] < half {
            i.update(3, i[3] + half)
        } else {
            i.update(3, i[3] - half)
        };
        assert(inside(d, i) && inside(d, other));
        assert(entries(cuts.0)[i] == entries(cuts.1)[i]);
        assert(entries(cuts.0)[other] == entries(cuts.1)[other]);
    }
}

proof fn lemma_copies_agree(
    times: int,
    x: (Tensor, Tensor),
    rows: (Tensor, Tensor),
    copies: (Tensor, Tensor),
    n: int,
)
    requires
        0 < times,
        dims(x.0).len() == 4,
        dims(x.0)[2] * times <= usize::MAX,
        agree(x.0, x.1, 1, n),
        heads_first(x.0, rows.0),
        heads_first(x.1, rows.1),
        heads_repeated(rows.0, times, copies.0),
        heads_repeated(rows.1, times, copies.1),
    ensures
        agree(copies.0, copies.1, 2, n),
{
    let d = dims(x.0);
    assert(dims(rows.0) =~= seq![d[0], d[2], d[1], d[3]]);
    assert forall|i: Seq<int>| inside(dims(copies.0), i) && i[2] < n implies #[trigger] entries(
        copies.0,
    )[i] == entries(copies.1)[i] by {
        assert(0 <= i[0] < d[0] && 0 <= i[1] < d[2] * times && 0 <= i[2] < d[1] && 0 <= i[3]
            < d[3]);
        lemma_copy_place(i[0], i[1], i[2], i[3], d[2] as int, times, d[1] as int, d[3] as int);
        let j = i.update(1, i[1] / times);
        assert(inside(dims(rows.0), j));
        let m = exchanged(j, 1, 2);
        assert(inside(d, m));
        assert(entries(x.0)[m] == entries(x.1)[m]);
        assert(entries(rows.0)[j] == entries(rows.1)[j]);
    }
}

/// A position never sees a later one: where queries, keys and values agree at the first
/// `n` positions, the queries of these positions are the same, and so is every key and
/// every value that they see.
pub proof fn law_later_positions_are_not_seen(
    times: int,
    q: (Tensor, Tensor),
    k: (Tensor, Tensor),
    v: (Tensor, Tensor),
    a: AttentionInput,
    b: AttentionInput,
    n: int,
)
    requires
        0 < times,
        dims(q.0).len() == 4,
        dims(k.0).len() == 4,
        dims(v.0).len() == 4,
        dims(k.0)[2] * times <= usize::MAX,
        dims(v.0)[2] * times <= usize::MAX,
        gathered(times, q.0, k.0, v.0, a),
        gathered(times, q.1, k.1, v.1, b),
        agree(q.0, q.1, 1, n),
        agree(k.0, k.1, 1, n),
        agree(v.0, v.1, 1, n),
    ensures
        agree(a.q, b.q, 2, n),
        forall|row: int, i: Seq<int>|
            #![trigger sees(0, row, i[2]), entries(a.k)[i]]
            0 <= row < n && inside(dims(a.k), i) && sees(0, row, i[2]) == 1 ==> entries(a.k)[i]
                == entries(b.k)[i],
        forall|row: int, i: Seq<int>|
            #![trigger sees(0, row, i[2]), entries(a.v)[i]]
            0 <= row < n && inside(dims(a.v), i) && sees(0, row, i[2]) == 1 ==> entries(a.v)[i]
                == entries(b.v)[i],
        a.mask is Some <==> b.mask is Some,
        a.mask matches Some(m) ==> same_elements(m, b.mask->0),
{
    let d = dims(q.0);
    assert(dims(a.q) =~= seq![d[0], d[2], d[1], d[3]]);
    assert forall|i: Seq<int>| inside(dims(a.q), i) && i[2] < n implies #[trigger] entries(a.q)[i]
        == entries(b.q)[i] by {
        let m = exchanged(i, 1, 2);
        assert(0 <= i[0] < d[0] && 0 <= i[1] < d[2] && 0 <= i[2] < d[1] && 0 <= i[3] < d[3]);
        assert(inside(d, m));
        assert(entries(q.0)[m] == entries(q.1)[m]);
    }
    let ka = choose|rows: Tensor| #[trigger]
        heads_first(k.0, rows) && heads_repeated(rows, times, a.k);
    let kb = choose|rows: Tensor| #[trigger]
        heads_first(k.1, rows) && heads_repeated(rows, times, b.k);
    let va = choose|rows: Tensor| #[trigger]
        heads_first(v.0, rows) && heads_repeated(rows, times, a.v);
    let vb = choose|rows: Tensor| #[trigger]
        heads_first(v.1, rows) && heads_repeated(rows, times, b.v);
    lemma_copies_agree(times, k, (ka, kb), (a.k, b.k), n);
    lemma_copies_agree(times, v, (va, vb), (a.v, b.v), n);
}

/// `a` and `b` have the same dimensions and the same elements.
pub open spec fn same_elements(a: Tensor, b: Tensor) -> bool {
    &&& dims(a) == dims(b)
    &&& forall|i: Seq<int>| inside(dims(a), i) ==> #[trigger] entries(a)[i] == entries(b)[i]
}

/// A position's heads are put together from that position alone: heads that agree at the
/// first `n` positions agree there when they are put together.
pub proof fn law_merging_keeps_positions_apart(
    x: (Tensor, Tensor),
    y: (Tensor, Tensor),
    n: int,
)
    requires
        dims(x.0).len() == 4,
        dims(x.0)[1] * dims(x.0)[3] <= usize::MAX,
        agree(x.0, x.1, 2, n),
        joined_heads(x.0, y.0),
        joined_heads(x.1, y.1),
    ensures
        agree(y.0, y.1, 1, n),
{
    let d = dims(x.0);
    assert forall|i: Seq<int>| inside(dims(y.0), i) && i[1] < n implies #[trigger] entries(y.0)[i]
        == entries(y.1)[i] by {
        assert(0 <= i[0] < d[0] && 0 <= i[1] < d[2] && 0 <= i[2] < d[1] * d[3]);
        let (h, e) = (i[2] / d[3] as int, i[2] % d[3] as int);
        assert(0 <= h < d[1] && 0 <= e < d[3] && i[2] == h * d[3] + e) by (nonlinear_arith)
            requires
                0 <= i[2] < d[1] * d[3],
                d[3] >= 0,
                h == i[2] / d[3] as int,
                e == i[2] % d[3] as int,
        ;
        let m = seq![i[0], h, i[1], e];
        assert(i =~= seq![i[0], i[1], h * d[3] + e]);
        assert(inside(d, m));
        assert(entries(x.0)[m] == entries(x.1)[m]);
        assert(entries(y.0)[seq![i[0], i[1], h * d[3] + e]] == entries(x.0)[m]);
        assert(entries(y.1)[seq![i[0], i[1], h * d[3] + e]] == entries(x.1)[m]);
    }
}

/// Whether queries, keys and values of these dimensions, after `past` positions, can be
/// put together for attention.
pub open spec fn gatherable(
    times: usize,
    q: Seq<usize>,
    k: Seq<usize>,
    v: Seq<usize>,
    past: int,
) -> bool {
    &&& fits(q)
    &&& fits(k)
    &&& fits(v)
    &&& q.len() == 4 && k.len() == 4 && v.len() == 4 ==> {
        &&& past + q[1] <= u32::MAX
        &&& past + k[1] <= u32::MAX
        &&& past + v[1] <= u32::MAX
        &&& fits(seq![q[1], (past + k[1]) as usize])
        &&& fits(copies_shape(seq![k[0], k[2], (past + k[1]) as usize, k[3]], times))
        &&& fits(copies_shape(seq![v[0], v[2], (past + k[1]) as usize, v[3]], times))
        &&& k[2] * times <= usize::MAX
        &&& v[2] * times <= usize::MAX
    }
}

/// Why queries, keys and values of these dimensions cannot be put together for attention
/// within one sequence, if they cannot.
pub open spec fn gather_refusal(q: Seq<usize>, k: Seq<usize>, v: Seq<usize>) -> Option<ModelError> {
    if !(q.len() == 4 && k.len() == 4 && v.len() == 4) {
        Some(ModelError::Rank)
    } else if k[1] == 0 {
        Some(ModelError::EmptySequence)
    } else if k[1] != q[1] {
        Some(ModelError::CacheLength(q[1], k[1]))
    } else {
        None
    }
}

/// Why queries, keys and values cannot be put together for attention after what a cache
/// holds, if they cannot.
pub open spec fn cached_refusal(cache: KVCache, q: Tensor, k: Tensor, v: Tensor) -> Option<
    ModelError,
> {
    if !(dims(q).len() == 4 && dims(k).len() == 4 && dims(v).len() == 4) {
        Some(ModelError::Rank)
    } else if dims(k)[1] == 0 {
        Some(ModelError::EmptySequence)
    } else {
        match cache.refusal_of_pair(
            element_type(k),
            exchanged(dims(k), 1, 2),
            element_type(v),
            exchanged(dims(v), 1, 2),
        ) {
            Some(e) => Some(e),
            None => if dims(k)[1] != dims(q)[1] {
                Some(
                    ModelError::CacheLength(
                        (cache.used() + dims(q)[1]) as usize,
                        (cache.used() + dims(k)[1]) as usize,
                    ),
                )
            } else {
                None
            },
        }
    }
}

/// A layer of a cache has got keys and values of dimensions (B, T, H, D), and has `keys`
/// and `values` in use with them.
pub open spec fn cache_extended(
    before: KVCache,
    after: KVCache,
    layer: int,
    k: Tensor,
    v: Tensor,
    keys: Tensor,
    values: Tensor,
) -> bool {
    exists|k_rows: Tensor, v_rows: Tensor| #[trigger]
        heads_first(k, k_rows) && #[trigger] heads_first(v, v_rows) && after.has_inserted(
            &before,
            layer,
            k_rows,
            v_rows,
            keys,
            values,
        )
}

/// `a` is queries, keys and values, each of dimensions (B, T, H, D), put together for
/// attention after what a layer of a cache holds.
pub open spec fn gathered_after(
    times: int,
    before: KVCache,
    after: KVCache,
    layer: int,
    q: Tensor,
    k: Tensor,
    v: Tensor,
    a: AttentionInput,
) -> bool {
    let past = before.used() as int;
    &&& heads_first(q, a.q)
    &&& exists|keys: Tensor, values: Tensor| #[trigger]
        cache_extended(before, after, layer, k, v, keys, values) && heads_repeated(keys, times, a.k)
            && heads_repeated(values, times, a.v)
    &&& masks(a.mask, past, dims(q)[1], (past + dims(k)[1]) as usize)
}

/// Two calls that share a cache see, in the second, what one call without a cache sees:
/// the keys and values of all positions, the first ones out of the cache. Between the calls
/// the other layers have their turn, which leaves this layer as it is.
pub proof fn law_calls_share_the_cache(
    empty: KVCache,
    mid: KVCache,
    mid_later: KVCache,
    full: KVCache,
    layer: int,
    k: (Tensor, Tensor, Tensor),
    v: (Tensor, Tensor, Tensor),
    rows: (Tensor, Tensor),
    once: (Tensor, Tensor),
    twice: (Tensor, Tensor),
    pos: usize,
    len: usize,
)
    requires
        empty.wf(),
        empty.used() == 0,
        0 <= layer < empty.buffers().len(),
        dims(k.0).len() == 4,
        dims(v.0).len() == 4,
        pos + len == dims(k.0)[1],
        pos + len == dims(v.0)[1],
        narrowed(k.0, 1, 0, pos, k.1),
        narrowed(v.0, 1, 0, pos, v.1),
        narrowed(k.0, 1, pos as int, len, k.2),
        narrowed(v.0, 1, pos as int, len, v.2),
        heads_first(k.0, rows.0),
        heads_first(v.0, rows.1),
        cache_extended(empty, mid, layer, k.1, v.1, once.0, once.1),
        mid_later.buffers()[layer] == mid.buffers()[layer],
        mid_later.used() == pos,
        cache_extended(mid_later, full, layer, k.2, v.2, twice.0, twice.1),
    ensures
        same_elements(twice.0, rows.0),
        same_elements(twice.1, rows.1),
{
    let (k_rows, v_rows) = choose|k_rows: Tensor, v_rows: Tensor| #[trigger]
        heads_first(k.1, k_rows) && #[trigger] heads_first(v.1, v_rows) && mid.has_inserted(
            &empty,
            layer,
            k_rows,
            v_rows,
            once.0,
            once.1,
        );
    let (k_more, v_more) = choose|k_more: Tensor, v_more: Tensor| #[trigger]
        heads_first(k.2, k_more) && #[trigger] heads_first(v.2, v_more) && full.has_inserted(
            &mid_later,
            layer,
            k_more,
            v_more,
            twice.0,
            twice.1,
        );
    let (keys, values) = mid.buffers()[layer];
    assert(dims(k_rows)[2] == pos && dims(v_rows)[2] == pos);
    assert(dims(k_more)[2] == len && dims(v_more)[2] == len);
    assert(dims(k_rows)[0] == dims(keys)[0] && dims(k_rows)[1] == dims(keys)[1] && dims(k_rows)[3]
        == dims(keys)[3]);
    assert(dims(v_rows)[0] == dims(values)[0] && dims(v_rows)[1] == dims(values)[1] && dims(
        v_rows,
    )[3] == dims(values)[3]);
    assert forall|i: Seq<int>|
        inside(dims(k_rows), i) && inside(dims(keys), i) && i[2] < pos implies #[trigger] entries(
        keys,
    )[i] == entries(k_rows)[i] by {
        assert(0 <= i[2]);
        assert(i.update(2, i[2] - 0) =~= i);
    }
    assert forall|i: Seq<int>|
        inside(dims(v_rows), i) && inside(dims(values), i) && i[2] < pos implies #[trigger] entries(
        values,
    )[i] == entries(v_rows)[i] by {
        assert(0 <= i[2]);
        assert(i.update(2, i[2] - 0) =~= i);
    }
    assert(followed_by(keys, pos as int, k.2, twice.0));
    assert(followed_by(values, pos as int, v.2, twice.1));
    law_cache_changes_nothing(
        k.0,
        rows.0,
        pos as int,
        k.1,
        k_rows,
        keys,
        k.2,
        len,
        twice.0,
    );
    law_cache_changes_nothing(
        v.0,
        rows.1,
        pos as int,
        v.1,
        v_rows,
        values,
        v.2,
        len,
        twice.1,
    );
}

/// The mask for `seq_len` queries from position `past_len` on.
fn mask_for(device: &Device, past_len: usize, seq_len: usize, total_len: usize) -> (r: Result<
    Option<Tensor>,
    ModelError,
>)
    requires
        past_len + seq_len <= u32::MAX,
        total_len <= u32::MAX,
        0 < total_len,
        fits(seq![seq_len, total_len]),
    ensures
        on_cpu(*device) ==> r is Ok,
        r matches Err(e) ==> e is Backend,
        r matches Ok(mask) ==> masks(mask, past_len as int, seq_len, total_len),
{
    if seq_len <= 1 {
        return Ok(None);
    }
    let grid = build_causal_mask(device, past_len, seq_len, total_len)?;
    proof {
        lemma_room_of_mask(seq_len, total_len);
    }
    match reshape(&grid, vec![1, 1, seq_len, total_len]) {
        Ok(m) => {
            proof {
                let shape = seq![1, 1, seq_len, total_len];
                assert(dims(m) =~= shape);
                assert forall|i: Seq<int>| inside(dims(m), i) implies #[trigger] entries(m)[i]
                    == sees(past_len as int, i[2], i[3]) by {
                    assert(0 <= i[0] < 1 && 0 <= i[1] < 1 && 0 <= i[2] < seq_len && 0 <= i[3]
                        < total_len);
                    let j = seq![i[2], i[3]];
                    assert(inside(dims(grid), j));
                    lemma_flat4(shape, i);
                    lemma_flat2(dims(grid), j);
                    assert(((0 * 1 + 0) * seq_len + i[2]) * total_len + i[3] == i[2] * total_len
                        + i[3]) by (nonlinear_arith);
                    assert(entries(m)[i] == entries(grid)[j]);
                }
            }
            Ok(Some(m))
        },
        Err(e) => Err(ModelError::Backend(e)),
    }
}

proof fn lemma_room_of_mask(a: usize, b: usize)
    ensures
        room(seq![1, 1, a, b]) == room(seq![a, b]),
{
    let s: Seq<usize> = seq![1, 1, a, b];
    assert(s.drop_last() =~= seq![1, 1, a]);
    assert(s.drop_last().drop_last() =~= seq![1, 1]);
    lemma_room2(1, 1);
    lemma_room2(a, b);
    let x: int = if a == 0 {
        1
    } else {
        a as int
    };
    assert(room(seq![1usize, 1]) == 1);
    assert(1 * x == x) by (nonlinear_arith);
    assert(room(s.drop_last()) == x);
}

impl CausalSelfAttention {
    /// The shapes of a configuration's attention.
    pub open spec fn shape_of(config: GPTConfig) -> Self {
        CausalSelfAttention {
            n_head: config.n_head,
            n_kv_head: config.n_kv_head,
            head_dim: (config.n_embd as int / config.n_head as int) as usize,
            kv_repeat: (config.n_head as int / config.n_kv_head as int) as usize,
        }
    }

    /// The shapes of a configuration's attention.
    pub fn new(config: &GPTConfig) -> (r: Self)
        requires
            config.n_head > 0,
            config.n_kv_head > 0,
        ensures
            r.n_head == config.n_head,
            r.n_kv_head == config.n_kv_head,
            r.head_dim == config.n_embd as int / config.n_head as int,
            r.kv_repeat == config.n_head as int / config.n_kv_head as int,
            config.valid() ==> r.kv_repeat > 0,
            r == Self::shape_of(*config),
    {
        proof {
            if config.valid() {
                super::gpt::law_valid_config(*config);
            }
        }
        CausalSelfAttention {
            n_head: config.n_head,
            n_kv_head: config.n_kv_head,
            head_dim: config.n_embd / config.n_head,
            kv_repeat: config.n_head / config.n_kv_head,
        }
    }

    /// The batch size and the number of positions of an input of dimensions (B, T, C).
    pub fn input_shape(x: &Tensor) -> (r: Result<(usize, usize), ModelError>)
        ensures
            match r {
                Ok((batch, seq_len)) => {
                    &&& dims(*x).len() == 3
                    &&& batch == dims(*x)[0]
                    &&& seq_len == dims(*x)[1]
                    &&& seq_len > 0
                },
                Err(e) => if dims(*x).len() == 3 {
                    dims(*x)[1] == 0 && e is EmptySequence
                } else {
                    e is Rank
                },
            },
    {
        let d = tensor_dims(x);
        if d.len() != 3 {
            return Err(ModelError::Rank);
        }
        if d[1] == 0 {
            return Err(ModelError::EmptySequence);
        }
        Ok((d[0], d[1]))
    }

    /// Whether projections can be cut into heads: those of queries and keys are floating
    /// point numbers, and heads of their size can be addressed.
    pub open spec fn splittable(
        &self,
        q: Tensor,
        k: Tensor,
        v: Tensor,
        batch: usize,
        seq_len: usize,
        past_len: usize,
    ) -> bool {
        &&& fits(dims(q))
        &&& fits(dims(k))
        &&& fits(dims(v))
        &&& floating(element_type(q))
        &&& floating(element_type(k))
        &&& fits(seq![batch, seq_len, self.n_head, self.head_dim])
        &&& fits(seq![batch, seq_len, self.n_kv_head, self.head_dim])
        &&& past_len + seq_len <= usize::MAX
    }

    /// Whether `split_heads` can be called with these projections.
    pub fn can_split(
        &self,
        q: &Tensor,
        k: &Tensor,
        v: &Tensor,
        batch: usize,
        seq_len: usize,
        past_len: usize,
    ) -> (r: bool)
        ensures
            r == self.splittable(*q, *k, *v, batch, seq_len, past_len),
    {
        let q_shape = vec![batch, seq_len, self.n_head, self.head_dim];
        let kv_shape = vec![batch, seq_len, self.n_kv_head, self.head_dim];
        assert(q_shape@ =~= seq![batch, seq_len, self.n_head, self.head_dim]);
        assert(kv_shape@ =~= seq![batch, seq_len, self.n_kv_head, self.head_dim]);
        addressable(&tensor_dims(q)) && addressable(&tensor_dims(k)) && addressable(&tensor_dims(v))
            && is_float(tensor_kind(q)) && is_float(tensor_kind(k)) && addressable(&q_shape)
            && addressable(&kv_shape) && past_len.checked_add(seq_len).is_some()
    }

    /// Why projections of these dimensions cannot be cut into heads and turned, if they
    /// cannot.
    pub open spec fn split_refusal(
        &self,
        q: Seq<usize>,
        k: Seq<usize>,
        v: Seq<usize>,
        batch: usize,
        seq_len: usize,
        rope: &RoPE,
        past_len: usize,
    ) -> Option<ModelError> {
        let all = count(seq![batch, seq_len, self.n_head, self.head_dim]);
        let shared = count(seq![batch, seq_len, self.n_kv_head, self.head_dim]);
        if count(q) != all || count(k) != shared || count(v) != shared {
            Some(ModelError::Shape)
        } else if self.head_dim != rope.head() {
            Some(ModelError::HeadDim(self.head_dim, rope.head() as usize))
        } else if past_len + seq_len > rope.positions() {
            Some(
                ModelError::Positions(
                    past_len,
                    (past_len + seq_len) as usize,
                    rope.positions() as usize,
                ),
            )
        } else {
            None
        }
    }

    /// `heads` are projections cut into heads, of which those of queries and keys are turned
    /// from position `past_len` on.
    pub open spec fn heads_of(
        &self,
        q: Tensor,
        k: Tensor,
        v: Tensor,
        batch: usize,
        seq_len: usize,
        rope: RoPE,
        past_len: int,
        heads: (Tensor, Tensor, Tensor),
    ) -> bool {
        &&& exists|m: Tensor| #[trigger]
            cut(q, batch, seq_len, self.n_head, self.head_dim, m) && applied(
                rope,
                m,
                past_len,
                heads.0,
            )
        &&& exists|m: Tensor| #[trigger]
            cut(k, batch, seq_len, self.n_kv_head, self.head_dim, m) && applied(
                rope,
                m,
                past_len,
                heads.1,
            )
        &&& cut(v, batch, seq_len, self.n_kv_head, self.head_dim, heads.2)
    }

    /// Cuts the projections of queries, keys and values, each of dimensions (B, T, H * D),
    /// into heads, and turns the heads of queries and keys by their positions.
    pub fn split_heads(
        &self,
        q: &Tensor,
        k: &Tensor,
        v: &Tensor,
        batch: usize,
        seq_len: usize,
        rope: &RoPE,
        past_len: usize,
    ) -> (r: Result<(Tensor, Tensor, Tensor), ModelError>)
        requires
            rope.wf(),
            self.splittable(*q, *k, *v, batch, seq_len, past_len),
        ensures
            match self.split_refusal(
                dims(*q),
                dims(*k),
                dims(*v),
                batch,
                seq_len,
                rope,
                past_len,
            ) {
                Some(e) => r is Err && (r->Err_0 == e || r->Err_0 is Backend),
                None => r is Ok || r->Err_0 is Backend,
            },
            workable(*q) && workable(*k) && workable(*v) && rope.ready() ==> !(r is Err
                && r->Err_0 is Backend),
            r matches Ok(heads) ==> self.heads_of(
                *q,
                *k,
                *v,
                batch,
                seq_len,
                *rope,
                past_len as int,
                heads,
            ),
            r matches Ok((qh, kh, vh)) ==> {
                &&& exists|m: Tensor| #[trigger]
                    cut(*q, batch, seq_len, self.n_head, self.head_dim, m) && applied(
                        *rope,
                        m,
                        past_len as int,
                        qh,
                    )
                &&& exists|m: Tensor| #[trigger]
                    cut(*k, batch, seq_len, self.n_kv_head, self.head_dim, m) && applied(
                        *rope,
                        m,
                        past_len as int,
                        kh,
                    )
                &&& cut(*v, batch, seq_len, self.n_kv_head, self.head_dim, vh)
            },
    {
        let q_heads = cut_heads(q, batch, seq_len, self.n_head, self.head_dim)?;
        let k_heads = cut_heads(k, batch, seq_len, self.n_kv_head, self.head_dim)?;
        let v_heads = cut_heads(v, batch, seq_len, self.n_kv_head, self.head_dim)?;
        let q_turned = rope.apply(&q_heads, past_len)?;
        let k_turned = rope.apply(&k_heads, past_len)?;
        Ok((q_turned, k_turned, v_heads))
    }

    /// Whether `gather` and `gather_cached` can be called with these tensors.
    pub fn can_gather(&self, q: &Tensor, k: &Tensor, v: &Tensor, past_len: usize) -> (r: bool)
        ensures
            r == gatherable(self.kv_repeat, dims(*q), dims(*k), dims(*v), past_len as int),
    {
        let dq = tensor_dims(q);
        let dk = tensor_dims(k);
        let dv = tensor_dims(v);
        if !addressable(&dq) || !addressable(&dk) || !addressable(&dv) {
            return false;
        }
        if dq.len() != 4 || dk.len() != 4 || dv.len() != 4 {
            return true;
        }
        let most: u64 = u32::MAX as u64;
        let past: u64 = past_len as u64;
        if past > most || dq[1] as u64 > most - past || dk[1] as u64 > most - past || dv[1] as u64
            > most - past {
            return false;
        }
        let total = past_len + dk[1];
        let times = self.kv_repeat;
        if dk[2].checked_mul(times).is_none() || dv[2].checked_mul(times).is_none() {
            return false;
        }
        let grid = vec![dq[1], total];
        let k_copies = vec![dk[0], dk[2], times, total, dk[3]];
        let v_copies = vec![dv[0], dv[2], times, total, dv[3]];
        proof {
            assert(grid@ =~= seq![dq[1], total]);
            assert(k_copies@ =~= copies_shape(seq![dk[0], dk[2], total, dk[3]], times));
            assert(v_copies@ =~= copies_shape(seq![dv[0], dv[2], total, dv[3]], times));
        }
        addressable(&grid) && addressable(&k_copies) && addressable(&v_copies)
    }

    /// Copies the keys and values for the heads that share them, and makes the mask.
    fn finish(&self, q: Tensor, k: &Tensor, v: &Tensor, past_len: usize, seq_len: usize) -> (r:
        Result<AttentionInput, ModelError>)
        requires
            self.kv_repeat > 0,
            dims(*k).len() == 4,
            dims(*v).len() == 4,
            0 < dims(*k)[2] <= u32::MAX,
            past_len + seq_len <= u32::MAX,
            fits(seq![seq_len, dims(*k)[2]]),
            repeatable(dims(*k), self.kv_repeat),
            repeatable(dims(*v), self.kv_repeat),
        ensures
            past_len + seq_len != dims(*k)[2] <==> r is Err && r->Err_0 is CacheLength,
            r matches Err(e) ==> e is Backend || e == ModelError::CacheLength(
                (past_len + seq_len) as usize,
                dims(*k)[2],
            ),
            workable(q) && workable(*k) && workable(*v) ==> !(r is Err && r->Err_0 is Backend),
            r matches Ok(a) ==> {
                &&& a.q == q
                &&& heads_repeated(*k, self.kv_repeat as int, a.k)
                &&& heads_repeated(*v, self.kv_repeat as int, a.v)
                &&& masks(a.mask, past_len as int, seq_len, dims(*k)[2])
            },
    {
        let d = tensor_dims(k);
        let total_len = d[2];
        if total_len != past_len + seq_len {
            return Err(ModelError::CacheLength(past_len + seq_len, total_len));
        }
        let k_attn = repeat_kv(k, self.kv_repeat)?;
        let v_attn = repeat_kv(v, self.kv_repeat)?;
        let mask = mask_for(tensor_device(&q), past_len, seq_len, total_len)?;
        Ok(AttentionInput { q, k: k_attn, v: v_attn, mask })
    }

    /// Puts queries, keys and values, each of dimensions (B, T, H, D), together for
    /// attention within one sequence.
    pub fn gather(&self, q: &Tensor, k: &Tensor, v: &Tensor) -> (r: Result<
        AttentionInput,
        ModelError,
    >)
        requires
            self.kv_repeat > 0,
            gatherable(self.kv_repeat, dims(*q), dims(*k), dims(*v), 0),
            dims(*v).len() == 4 && dims(*k).len() == 4 ==> dims(*v)[1] == dims(*k)[1],
        ensures
            match gather_refusal(dims(*q), dims(*k), dims(*v)) {
                Some(e) => r is Err && (r->Err_0 == e || r->Err_0 is Backend),
                None => r is Ok || r->Err_0 is Backend,
            },
            r matches Err(e) ==> e is Backend ==> !(gather_refusal(
                dims(*q),
                dims(*k),
                dims(*v),
            ) matches Some(f) && (f is Rank || f is EmptySequence)),
            workable(*q) && workable(*k) && workable(*v) ==> !(r is Err && r->Err_0 is Backend),
            r matches Ok(a) ==> gathered(self.kv_repeat as int, *q, *k, *v, a),
    {
        let dq = tensor_dims(q);
        let dk = tensor_dims(k);
        let dv = tensor_dims(v);
        if dq.len() != 4 || dk.len() != 4 || dv.len() != 4 {
            return Err(ModelError::Rank);
        }
        if dk[1] == 0 {
            return Err(ModelError::EmptySequence);
        }
        let q_rows = by_heads(q)?;
        let k_rows = by_heads(k)?;
        let v_rows = by_heads(v)?;
        proof {
            assert(copies_shape(dims(k_rows), self.kv_repeat) =~= copies_shape(
                seq![dk[0], dk[2], dk[1], dk[3]],
                self.kv_repeat,
            ));
            assert(copies_shape(dims(v_rows), self.kv_repeat) =~= copies_shape(
                seq![dv[0], dv[2], dk[1], dv[3]],
                self.kv_repeat,
            ));
        }
        self.finish(q_rows, &k_rows, &v_rows, 0, dq[1])
    }

    /// Puts queries, keys and values, each of dimensions (B, T, H, D), together for
    /// attention, after the keys and values that a layer of the cache holds; the new ones
    /// are added to it.
    pub fn gather_cached(
        &self,
        cache: &mut KVCache,
        layer_idx: usize,
        q: &Tensor,
        k: &Tensor,
        v: &Tensor,
    ) -> (r: Result<AttentionInput, ModelError>)
        requires
            self.kv_repeat > 0,
            old(cache).wf(),
            layer_idx < old(cache).buffers().len(),
            gatherable(
                self.kv_repeat,
                dims(*q),
                dims(*k),
                dims(*v),
                old(cache).used() as int,
            ),
            dims(*k).len() == 4 ==> old(cache).can_hold(old(cache).used() + dims(*k)[1]),
            dims(*v).len() == 4 && dims(*k).len() == 4 ==> dims(*v)[1] == dims(*k)[1],
        ensures
            final(cache).wf(),
            !(dims(*q).len() == 4 && dims(*k).len() == 4 && dims(*v).len() == 4) <==> r is Err
                && r->Err_0 is Rank,
            dims(*q).len() == 4 && dims(*k).len() == 4 && dims(*v).len() == 4 && dims(*k)[1] == 0
                <==> r is Err && r->Err_0 is EmptySequence,
            old(cache).settled() ==> match cached_refusal(*old(cache), *q, *k, *v) {
                Some(e) => r is Err && (r->Err_0 == e || r->Err_0 is Backend),
                None => r is Ok || r->Err_0 is Backend,
            },
            old(cache).ready() && workable(*q) && workable(*k) && workable(*v) ==> !(r is Err
                && r->Err_0 is Backend),
            r matches Err(e) ==> e is Rank || e is EmptySequence ==> *final(cache) == *old(cache),
            r matches Err(e) ==> e is Types || e is Shape ==> final(cache).keeps(old(cache)),
            r matches Err(e) ==> e is Backend ==> final(cache).keeps(old(cache)) || exists|
                keys: Tensor,
                values: Tensor,
            | #[trigger]
                cache_extended(
                    *old(cache),
                    *final(cache),
                    layer_idx as int,
                    *k,
                    *v,
                    keys,
                    values,
                ),
            r matches Err(e) ==> e is CacheLength ==> dims(*k)[1] != dims(*q)[1] && exists|
                keys: Tensor,
                values: Tensor,
            | #[trigger]
                cache_extended(
                    *old(cache),
                    *final(cache),
                    layer_idx as int,
                    *k,
                    *v,
                    keys,
                    values,
                ),
            r matches Err(e) ==> e is Rank || e is EmptySequence || e is Types || e is Shape
                || e is CacheLength || e is Backend,
            r matches Ok(a) ==> {
                let past = old(cache).used() as int;
                &&& dims(*k)[1] == dims(*q)[1]
                &&& heads_first(*q, a.q)
                &&& exists|keys: Tensor, values: Tensor| #[trigger]
                    cache_extended(
                        *old(cache),
                        *final(cache),
                        layer_idx as int,
                        *k,
                        *v,
                        keys,
                        values,
                    ) && heads_repeated(keys, self.kv_repeat as int, a.k) && heads_repeated(
                        values,
                        self.kv_repeat as int,
                        a.v,
                    )
                &&& masks(a.mask, past, dims(*q)[1], (past + dims(*k)[1]) as usize)
            },
            r matches Ok(a) ==> gathered_after(
                self.kv_repeat as int,
                *old(cache),
                *final(cache),
                layer_idx as int,
                *q,
                *k,
                *v,
                a,
            ),
    {
        let dq = tensor_dims(q);
        let dk = tensor_dims(k);
        let dv = tensor_dims(v);
        if dq.len() != 4 || dk.len() != 4 || dv.len() != 4 {
            return Err(ModelError::Rank);
        }
        if dk[1] == 0 {
            return Err(ModelError::EmptySequence);
        }
        let past_len = cache.pos();
        let q_rows = by_heads(q)?;
        let k_rows = by_heads(k)?;
        let v_rows = by_heads(v)?;
        let ghost (added_k, added_v) = (k_rows, v_rows);
        let (keys, values) = cache.insert_layer(layer_idx, k_rows, v_rows)?;
        proof {
            let total = (past_len + dk[1]) as usize;
            assert(copies_shape(dims(keys), self.kv_repeat) =~= copies_shape(
                seq![dk[0], dk[2], total, dk[3]],
                self.kv_repeat,
            ));
            assert(copies_shape(dims(values), self.kv_repeat) =~= copies_shape(
                seq![dv[0], dv[2], total, dv[3]],
                self.kv_repeat,
            ));
            assert(heads_first(*k, added_k) && heads_first(*v, added_v) && cache.has_inserted(
                old(cache),
                layer_idx as int,
                added_k,
                added_v,
                keys,
                values,
            ));
            assert(cache_extended(*old(cache), *cache, layer_idx as int, *k, *v, keys, values));
        }
        self.finish(q_rows, &keys, &values, past_len, dq[1])
    }
}

/// There is a mask exactly if there is more than one query. It has a row for each query and
/// a column for each key, with 1 where the key is no later than the query, whose position is
/// `past` and its row, and 0 elsewhere.
pub proof fn law_masks_are_causal(
    mask: Option<Tensor>,
    past: int,
    queries: usize,
    keys: usize,
    row: int,
    column: int,
)
    requires
        masks(mask, past, queries, keys),
        0 <= row < queries,
        0 <= column < keys,
    ensures
        mask is Some <==> queries > 1,
        mask matches Some(m) ==> {
            &&& dims(m) == seq![1, 1, queries, keys]
            &&& column <= past + row ==> entries(m)[seq![0, 0, row, column]] == 1
            &&& column > past + row ==> entries(m)[seq![0, 0, row, column]] == 0
        },
        column <= past + row ==> sees(past, row, column) == 1,
        column > past + row ==> sees(past, row, column) == 0,
{
    if let Some(m) = mask {
        assert(inside(dims(m), seq![0, 0, row, column]));
    }
}

/// Head `k` of the keys or values serves the heads from `k * times` on, `times` of them.
pub proof fn law_heads_are_shared_in_order(
    x: Tensor,
    times: int,
    y: Tensor,
    b: int,
    k: int,
    r: int,
    t: int,
    e: int,
)
    requires
        heads_repeated(x, times, y),
        dims(x).len() == 4,
        0 < times,
        dims(x)[1] * times <= usize::MAX,
        0 <= b < dims(x)[0],
        0 <= k < dims(x)[1],
        0 <= r < times,
        0 <= t < dims(x)[2],
        0 <= e < dims(x)[3],
    ensures
        dims(y).len() == 4,
        dims(y)[0] == dims(x)[0] && dims(y)[2] == dims(x)[2] && dims(y)[3] == dims(x)[3],
        dims(y)[1] == dims(x)[1] * times,
        entries(y)[seq![b, k * times + r, t, e]] == entries(x)[seq![b, k, t, e]],
{
    let h = k * times + r;
    let i = seq![b, h, t, e];
    vstd::arithmetic::div_mod::lemma_fundamental_div_mod_converse(h, times, k, r);
    assert(0 <= h < dims(x)[1] * times) by (nonlinear_arith)
        requires
            h == k * times + r,
            0 <= r < times,
            0 <= k < dims(x)[1],
    {
        assert((k + 1) * times <= dims(x)[1] * times);
        assert(k * times + times == (k + 1) * times);
    }
    assert(inside(dims(y), i));
    assert(i.update(1, i[1] / times) =~= seq![b, k, t, e]);
}

/// What attention gets of queries, keys and values, each of dimensions (B, T, H, D): the
/// queries with their heads before their positions, and of the keys and values the same,
/// `times` of each head next to each other.
pub proof fn law_what_attention_gets(
    times: int,
    q: Tensor,
    k: Tensor,
    v: Tensor,
    a: AttentionInput,
    b: int,
    t: int,
    h: int,
    e: int,
    r: int,
)
    requires
        gathered(times, q, k, v, a),
        0 < times,
        dims(q).len() == 4,
        dims(k).len() == 4,
        dims(v) == dims(k),
        dims(k)[2] * times <= usize::MAX,
        0 <= b < dims(k)[0],
        0 <= t < dims(k)[1],
        0 <= h < dims(k)[2],
        0 <= e < dims(k)[3],
        0 <= r < times,
    ensures
        dims(a.q) == seq![dims(q)[0], dims(q)[2], dims(q)[1], dims(q)[3]],
        b < dims(q)[0] && t < dims(q)[1] && h < dims(q)[2] && e < dims(q)[3] ==> entries(a.q)[seq![
            b,
            h,
            t,
            e,
        ]] == entries(q)[seq![b, t, h, e]],
        dims(a.k)[1] == dims(k)[2] * times && dims(a.v)[1] == dims(k)[2] * times,
        dims(a.k)[2] == dims(k)[1] && dims(a.v)[2] == dims(k)[1],
        entries(a.k)[seq![b, h * times + r, t, e]] == entries(k)[seq![b, t, h, e]],
        entries(a.v)[seq![b, h * times + r, t, e]] == entries(v)[seq![b, t, h, e]],
        dims(k)[1] == dims(q)[1],
{
    let k_rows = choose|rows: Tensor| #[trigger]
        heads_first(k, rows) && heads_repeated(rows, times, a.k);
    let v_rows = choose|rows: Tensor| #[trigger]
        heads_first(v, rows) && heads_repeated(rows, times, a.v);
    let d = dims(k);
    let i = seq![b, h, t, e];
    assert(dims(a.q) =~= seq![dims(q)[0], dims(q)[2], dims(q)[1], dims(q)[3]]);
    assert(dims(k_rows) =~= seq![d[0], d[2], d[1], d[3]]);
    assert(dims(v_rows) =~= seq![d[0], d[2], d[1], d[3]]);
    law_heads_are_shared_in_order(k_rows, times, a.k, b, h, r, t, e);
    law_heads_are_shared_in_order(v_rows, times, a.v, b, h, r, t, e);
    assert(exchanged(i, 1, 2) =~= seq![b, t, h, e]);
    assert(inside(dims(k_rows), i));
    assert(inside(dims(v_rows), i));
    if b < dims(q)[0] && t < dims(q)[1] && h < dims(q)[2] && e < dims(q)[3] {
        assert(inside(dims(a.q), i));
    }
}

/// Element `e` of head `h` is element `h * width + e` of a position's projection, when heads
/// are cut and when they are put together again.
pub proof fn law_heads_are_stretches_of_a_position(
    x: Tensor,
    batch: usize,
    seq_len: usize,
    heads: usize,
    width: usize,
    cuts: Tensor,
    rows: Tensor,
    y: Tensor,
    b: int,
    t: int,
    h: int,
    e: int,
)
    requires
        heads * width <= usize::MAX,
        dims(x) == seq![batch, seq_len, (heads * width) as usize],
        cut(x, batch, seq_len, heads, width, cuts),
        heads_first(cuts, rows),
        joined_heads(rows, y),
        0 <= b < batch,
        0 <= t < seq_len,
        0 <= h < heads,
        0 <= e < width,
    ensures
        dims(cuts) == seq![batch, seq_len, heads, width],
        entries(cuts)[seq![b, t, h, e]] == entries(x)[seq![b, t, h * width + e]],
        dims(y) == dims(x),
        entries(y)[seq![b, t, h * width + e]] == entries(x)[seq![b, t, h * width + e]],
{
    let i = seq![b, t, h, e];
    let j = seq![b, h, t, e];
    assert(inside(dims(cuts), i));
    assert(dims(rows) =~= seq![batch, heads, seq_len, width]);
    assert(inside(dims(rows), j));
    assert(exchanged(j, 1, 2) =~= i);
    assert(entries(rows)[j] == entries(cuts)[i]);
    assert(dims(y) =~= dims(x));
    let d = dims(rows);
    assert(entries(y)[seq![b, t, h * d[3] + e]] == entries(rows)[seq![b, h, t, e]]);
}

/// Within one sequence, tensors of another number of dimensions are refused first, then a
/// sequence without positions, and then queries that are not as many as the keys.
pub proof fn law_refused_queries(q: Seq<usize>, k: Seq<usize>, v: Seq<usize>)
    ensures
        gather_refusal(q, k, v) == Some(ModelError::Rank) <==> q.len() != 4 || k.len() != 4
            || v.len() != 4,
        q.len() == 4 && k.len() == 4 && v.len() == 4 ==> {
            &&& gather_refusal(q, k, v) == Some(ModelError::EmptySequence) <==> k[1] == 0
            &&& gather_refusal(q, k, v) == Some(ModelError::CacheLength(q[1], k[1])) <==> k[1] > 0
                && k[1] != q[1]
            &&& gather_refusal(q, k, v) is None <==> k[1] > 0 && k[1] == q[1]
        },
{
}

/// Projections are refused for their number of elements first, then for the size of a head,
/// and then for their positions.
pub proof fn law_refused_projections(
    a: CausalSelfAttention,
    q: Seq<usize>,
    k: Seq<usize>,
    v: Seq<usize>,
    batch: usize,
    seq_len: usize,
    rope: RoPE,
    past_len: usize,
)
    ensures
        ({
            let refusal = a.split_refusal(q, k, v, batch, seq_len, &rope, past_len);
            let all = count(seq![batch, seq_len, a.n_head, a.head_dim]);
            let shared = count(seq![batch, seq_len, a.n_kv_head, a.head_dim]);
            let fit = count(q) == all && count(k) == shared && count(v) == shared;
            &&& refusal == Some(ModelError::Shape) <==> !fit
            &&& refusal == Some(ModelError::HeadDim(a.head_dim, rope.head() as usize)) <==> fit
                && a.head_dim != rope.head()
            &&& refusal == Some(
                ModelError::Positions(
                    past_len,
                    (past_len + seq_len) as usize,
                    rope.positions() as usize,
                ),
            ) <==> fit && a.head_dim == rope.head() && past_len + seq_len > rope.positions()
            &&& refusal is None <==> fit && a.head_dim == rope.head() && past_len + seq_len
                <= rope.positions()
        }),
{
}

/// The heads of an accepted configuration make up the embedding, and each key/value head is
/// shared by as many heads as make up all of them.
pub proof fn law_heads_make_up_the_embedding(config: GPTConfig)
    requires
        config.valid(),
    ensures
        ({
            let a = CausalSelfAttention::shape_of(config);
            &&& a.n_head == config.n_head
            &&& a.n_kv_head == config.n_kv_head
            &&& a.n_head * a.head_dim == config.n_embd
            &&& a.n_kv_head * a.kv_repeat == config.n_head
        }),
{
    super::gpt::law_valid_config(config);
    let (e, h, k) = (config.n_embd as int, config.n_head as int, config.n_kv_head as int);
    assert(e / h <= e && h / k <= h) by (nonlinear_arith)
        requires
            h > 0,
            k > 0,
            e >= 0,
    ;
}

/// With a cache, tensors of another number of dimensions are refused first, then a sequence
/// without positions, then what the cache refuses, and then queries that are not as many as
/// the keys; nothing else is refused.
pub proof fn law_refused_with_a_cache(cache: KVCache, q: Tensor, k: Tensor, v: Tensor)
    ensures
        ({
            let refusal = cached_refusal(cache, q, k, v);
            let ranks = dims(q).len() == 4 && dims(k).len() == 4 && dims(v).len() == 4;
            let k_rows = seq![dims(k)[0], dims(k)[2], dims(k)[1], dims(k)[3]];
            let v_rows = seq![dims(v)[0], dims(v)[2], dims(v)[1], dims(v)[3]];
            let least = cache.used() + dims(k)[1];
            let kr = cache.refusal(element_type(k), k_rows, least);
            let vr = cache.refusal(element_type(v), v_rows, least);
            &&& !ranks ==> refusal == Some(ModelError::Rank)
            &&& ranks && dims(k)[1] == 0 ==> refusal == Some(ModelError::EmptySequence)
            &&& ranks && dims(k)[1] > 0 && kr is Some ==> refusal == kr
            &&& ranks && dims(k)[1] > 0 && kr is None && vr is Some ==> refusal == vr
            &&& ranks && dims(k)[1] > 0 && kr is None && vr is None && dims(k)[1] != dims(q)[1]
                ==> refusal is Some
            &&& ranks && dims(k)[1] > 0 && kr is None && vr is None && dims(k)[1] == dims(q)[1]
                ==> refusal is None
        }),
{
    if dims(k).len() == 4 && dims(v).len() == 4 {
        assert(exchanged(dims(k), 1, 2) =~= seq![
            dims(k)[0],
            dims(k)[2],
            dims(k)[1],
            dims(k)[3],
        ]);
        assert(exchanged(dims(v), 1, 2) =~= seq![
            dims(v)[0],
            dims(v)[2],
            dims(v)[1],
            dims(v)[3],
        ]);
    }
}

/// With a cache, attention gets the keys and values that the layer holds and then the new
/// ones, `times` of each head next to each other; its queries see what the cache holds and
/// those of the new positions that are no later than they are.
pub proof fn law_what_attention_gets_with_a_cache(
    times: int,
    before: KVCache,
    after: KVCache,
    layer: int,
    q: Tensor,
    k: Tensor,
    v: Tensor,
    a: AttentionInput,
    b: int,
    t: int,
    h: int,
    e: int,
    r: int,
    row: int,
)
    requires
        gathered_after(times, before, after, layer, q, k, v, a),
        before.settled(),
        0 <= layer < before.buffers().len(),
        0 < times,
        dims(k).len() == 4,
        dims(v) == dims(k),
        dims(q).len() == 4,
        dims(q)[1] == dims(k)[1],
        before.used() + dims(k)[1] <= usize::MAX,
        dims(k)[2] * times <= usize::MAX,
        0 <= b < dims(k)[0],
        0 <= t < before.used() + dims(k)[1],
        0 <= h < dims(k)[2],
        0 <= e < dims(k)[3],
        0 <= r < times,
        0 <= row < dims(q)[1],
    ensures
        ({
            let past = before.used() as int;
            let i = seq![b, h * times + r, t, e];
            &&& t < past ==> entries(a.k)[i] == entries(before.buffers()[layer].0)[seq![b, h, t, e]]
            &&& t < past ==> entries(a.v)[i] == entries(before.buffers()[layer].1)[seq![b, h, t, e]]
            &&& t >= past ==> entries(a.k)[i] == entries(k)[seq![b, t - past, h, e]]
            &&& t >= past ==> entries(a.v)[i] == entries(v)[seq![b, t - past, h, e]]
            &&& a.mask is Some <==> dims(q)[1] > 1
            &&& a.mask matches Some(m) ==> entries(m)[seq![0, 0, row, t]] == (if t <= past + row {
                1int
            } else {
                0int
            })
        }),
{
    let past = before.used() as int;
    let d = dims(k);
    let (keys, values) = choose|keys: Tensor, values: Tensor| #[trigger]
        cache_extended(before, after, layer, k, v, keys, values) && heads_repeated(keys, times, a.k)
            && heads_repeated(values, times, a.v);
    let (k_rows, v_rows) = choose|k_rows: Tensor, v_rows: Tensor| #[trigger]
        heads_first(k, k_rows) && #[trigger] heads_first(v, v_rows) && after.has_inserted(
            &before,
            layer,
            k_rows,
            v_rows,
            keys,
            values,
        );
    assert(dims(k_rows) =~= seq![d[0], d[2], d[1], d[3]]);
    assert(dims(v_rows) =~= seq![d[0], d[2], d[1], d[3]]);
    law_inserted_positions_follow(
        before.buffers()[layer].0,
        k_rows,
        past,
        keys,
        b,
        h,
        t,
        e,
    );
    law_inserted_positions_follow(
        before.buffers()[layer].1,
        v_rows,
        past,
        values,
        b,
        h,
        t,
        e,
    );
    law_heads_are_shared_in_order(keys, times, a.k, b, h, r, t, e);
    law_heads_are_shared_in_order(values, times, a.v, b, h, r, t, e);
    if t >= past {
        let j = seq![b, h, t - past, e];
        assert(inside(dims(k_rows), j));
        assert(inside(dims(v_rows), j));
        assert(exchanged(j, 1, 2) =~= seq![b, t - past, h, e]);
    }
    law_masks_are_causal(a.mask, past, dims(q)[1], (past + d[1]) as usize, row, t);
}

/// The heads of queries and keys at position `t` of the new ones are turned as position
/// `past + t` of the sequence, pair by pair, and those of values are not turned.
pub proof fn law_heads_are_turned_by_their_positions(
    a: CausalSelfAttention,
    q: Tensor,
    k: Tensor,
    v: Tensor,
    batch: usize,
    seq_len: usize,
    rope: RoPE,
    past: int,
    heads: (Tensor, Tensor, Tensor),
    b: int,
    t: int,
    h: int,
    e: int,
)
    requires
        a.heads_of(q, k, v, batch, seq_len, rope, past, heads),
        rope.head() == a.head_dim,
        a.n_kv_head <= a.n_head,
        a.n_head * a.head_dim <= usize::MAX,
        a.n_kv_head * a.head_dim <= usize::MAX,
        dims(q) == seq![batch, seq_len, (a.n_head * a.head_dim) as usize],
        dims(k) == seq![batch, seq_len, (a.n_kv_head * a.head_dim) as usize],
        dims(v) == dims(k),
        element_type(k) == element_type(q),
        element_type(rope.cosines()) == element_type(q),
        element_type(rope.sines()) == element_type(q),
        floating(element_type(q)),
        0 <= b < batch,
        0 <= t < seq_len,
        0 <= h < a.n_kv_head,
        0 <= e < a.head_dim as int / 2,
    ensures
        ({
            let of = element_type(q);
            let half = a.head_dim as int / 2;
            let c = entries(rope.cosines())[seq![past + t, e]];
            let s = entries(rope.sines())[seq![past + t, e]];
            let q1 = entries(q)[seq![b, t, h * a.head_dim + e]];
            let q2 = entries(q)[seq![b, t, h * a.head_dim + (half + e)]];
            let k1 = entries(k)[seq![b, t, h * a.head_dim + e]];
            let k2 = entries(k)[seq![b, t, h * a.head_dim + (half + e)]];
            &&& entries(heads.0)[seq![b, t, h, e]] == sum(
                of,
                product(of, q1, c),
                product(of, q2, s),
            )
            &&& entries(heads.0)[seq![b, t, h, half + e]] == difference(
                of,
                product(of, q2, c),
                product(of, q1, s),
            )
            &&& entries(heads.1)[seq![b, t, h, e]] == sum(
                of,
                product(of, k1, c),
                product(of, k2, s),
            )
            &&& entries(heads.1)[seq![b, t, h, half + e]] == difference(
                of,
                product(of, k2, c),
                product(of, k1, s),
            )
            &&& entries(heads.2)[seq![b, t, h, e]] == entries(v)[seq![
                b,
                t,
                h * a.head_dim + e,
            ]]
        }),
{
    let half = a.head_dim as int / 2;
    let m = choose|m: Tensor| #[trigger]
        cut(q, batch, seq_len, a.n_head, a.head_dim, m) && applied(rope, m, past, heads.0);
    let n = choose|m: Tensor| #[trigger]
        cut(k, batch, seq_len, a.n_kv_head, a.head_dim, m) && applied(rope, m, past, heads.1);
    law_pairs_of_fractions_are_rotated(rope, m, past, heads.0, b, t, h, e);
    law_pairs_of_fractions_are_rotated(rope, n, past, heads.1, b, t, h, e);
    let i1 = seq![b, t, h, e];
    let i2 = seq![b, t, h, half + e];
    assert(inside(dims(m), i1) && inside(dims(m), i2));
    assert(inside(dims(n), i1) && inside(dims(n), i2));
    assert(inside(dims(heads.2), i1));
    assert(entries(m)[i1] == entries(q)[seq![b, t, h * a.head_dim + e]]);
    assert(entries(m)[i2] == entries(q)[seq![b, t, h * a.head_dim + (half + e)]]);
    assert(entries(n)[i1] == entries(k)[seq![b, t, h * a.head_dim + e]]);
    assert(entries(n)[i2] == entries(k)[seq![b, t, h * a.head_dim + (half + e)]]);
}

} // verus!
