//! Texts: comparing and trimming them, and writing numbers into them.
use vstd::prelude::*;
use vstd::utf8::{decode_utf8, encode_utf8, valid_utf8};

verus! {

/// What stands for bytes that are not UTF-8: the text that `String::from_utf8_lossy`
/// makes of them.
pub uninterp spec fn repaired_text(bytes: Seq<u8>) -> Seq<char>;

/// The text of some bytes: what they encode, or, where they are not UTF-8, the text
/// that stands for them.
pub open spec fn lossy_text(bytes: Seq<u8>) -> Seq<char> {
    if valid_utf8(bytes) {
        decode_utf8(bytes)
    } else {
        repaired_text(bytes)
    }
}

/// `String::from_utf8_lossy`: the text that the bytes encode where they are valid
/// UTF-8; of other bytes the result is only named.
#[verifier::external_body]
pub(crate) fn from_utf8_lossy(bytes: &Vec<u8>) -> (text: String)
    ensures
        text@ == if valid_utf8(bytes@) {
            decode_utf8(bytes@)
        } else {
            repaired_text(bytes@)
        },
{
    String::from_utf8_lossy(bytes).into_owned()
}

/// `str::strip_prefix`: what follows the prefix, where the text begins with it.
#[verifier::external_body]
pub(crate) fn strip_prefix<'a>(text: &'a str, prefix: &str) -> (rest: Option<&'a str>)
    ensures
        match rest {
            Some(rest) => text@ == prefix@ + rest@,
            None => !prefix@.is_prefix_of(text@),
        },
{
    text.strip_prefix(prefix)
}

/// Whether a character is white space, as Unicode's property White_Space has it.
pub open spec fn white_space(c: char) -> bool {
    let code = c as u32;
    ||| 0x9 <= code <= 0xd
    ||| code == 0x20
    ||| code == 0x85
    ||| code == 0xa0
    ||| code == 0x1680
    ||| 0x2000 <= code <= 0x200a
    ||| code == 0x2028
    ||| code == 0x2029
    ||| code == 0x202f
    ||| code == 0x205f
    ||| code == 0x3000
}

/// Whether a character is white space, as Unicode's property White_Space has it.
pub fn is_white_space(c: char) -> (r: bool)
    ensures
        r == white_space(c),
{
    let code = c as u32;
    (0x9 <= code && code <= 0xd) || code == 0x20 || code == 0x85 || code == 0xa0 || code == 0x1680
        || (0x2000 <= code && code <= 0x200a) || code == 0x2028 || code == 0x2029 || code == 0x202f
        || code == 0x205f || code == 0x3000
}

/// `String::push`: appends a character.
pub assume_specification[ String::push ](text: &mut String, c: char)
    ensures
        final(text)@ == old(text)@.push(c),
;

/// Whether two texts are the same.
pub fn same_text(a: &str, b: &str) -> (r: bool)
    ensures
        r == (a@ == b@),
{
    let left = a.as_bytes();
    let right = b.as_bytes();
    proof {
        vstd::utf8::encode_utf8_decode_utf8(a@);
        vstd::utf8::encode_utf8_decode_utf8(b@);
    }
    if left.len() != right.len() {
        return false;
    }
    for i in 0..left.len()
        invariant
            left@ == encode_utf8(a@),
            right@ == encode_utf8(b@),
            left@.len() == right@.len(),
            forall|k: int| 0 <= k < i ==> left@[k] == right@[k],
    {
        if left[i] != right[i] {
            return false;
        }
    }
    assert(left@ =~= right@);
    true
}

/// The characters of a text.
pub fn characters(text: &str) -> (chars: Vec<char>)
    ensures
        chars@ == text@,
{
    let mut chars: Vec<char> = Vec::new();
    for c in it: text.chars()
        invariant
            it.seq() == text@,
            chars@ == text@.take(it.index() as int),
    {
        chars.push(c);
        assert(text@.take(it.index() as int + 1) =~= text@.take(it.index() as int).push(c));
    }
    assert(text@.take(text@.len() as int) =~= text@);
    chars
}

/// The characters from `from` up to `to` as a text.
pub fn text_of(chars: &Vec<char>, from: usize, to: usize) -> (text: String)
    requires
        from <= to <= chars@.len(),
    ensures
        text@ == chars@.subrange(from as int, to as int),
{
    let mut text = String::new();
    for i in from..to
        invariant
            to <= chars@.len(),
            from <= i,
            text@ == chars@.subrange(from as int, i as int),
    {
        text.push(chars[i]);
        assert(chars@.subrange(from as int, i + 1) =~= chars@.subrange(from as int, i as int).push(
            chars@[i as int],
        ));
    }
    text
}

/// How many white space characters a text begins with.
pub open spec fn leading_space(text: Seq<char>) -> nat
    decreases text.len(),
{
    if text.len() > 0 && white_space(text[0]) {
        1 + leading_space(text.skip(1))
    } else {
        0
    }
}

/// How many white space characters a text ends with.
pub open spec fn trailing_space(text: Seq<char>) -> nat
    decreases text.len(),
{
    if text.len() > 0 && white_space(text.last()) {
        1 + trailing_space(text.drop_last())
    } else {
        0
    }
}

/// A text without the white space that it begins and ends with.
pub open spec fn trimmed(text: Seq<char>) -> Seq<char> {
    let rest = text.skip(leading_space(text) as int);
    rest.take(rest.len() - trailing_space(rest))
}

proof fn lemma_leading_space(text: Seq<char>, n: int)
    requires
        0 <= n <= text.len(),
        forall|i: int| 0 <= i < n ==> white_space(#[trigger] text[i]),
        n < text.len() ==> !white_space(text[n]),
    ensures
        leading_space(text) == n,
    decreases n,
{
    if n > 0 {
        assert forall|i: int| 0 <= i < n - 1 implies white_space(#[trigger] text.skip(1)[i]) by {
            assert(text.skip(1)[i] == text[i + 1]);
        }
        assert(white_space(text[0]));
        lemma_leading_space(text.skip(1), n - 1);
    }
}

proof fn lemma_trailing_space(text: Seq<char>, n: int)
    requires
        0 <= n <= text.len(),
        forall|i: int| text.len() - n <= i < text.len() ==> white_space(#[trigger] text[i]),
        n < text.len() ==> !white_space(text[text.len() - n - 1]),
    ensures
        trailing_space(text) == n,
    decreases n,
{
    if n > 0 {
        assert(white_space(text[text.len() - 1]));
        lemma_trailing_space(text.drop_last(), n - 1);
    }
}

/// Removes the white space that a text begins and ends with.
pub fn trim(text: &str) -> (r: String)
    ensures
        r@ == trimmed(text@),
{
    let chars = characters(text);
    let n = chars.len();
    let mut from: usize = 0;
    while from < n && is_white_space(chars[from])
        invariant
            n == chars@.len(),
            from <= n,
            forall|i: int| 0 <= i < from ==> white_space(#[trigger] chars@[i]),
        decreases n - from,
    {
        from = from + 1;
    }
    let mut to: usize = n;
    while to > from && is_white_space(chars[to - 1])
        invariant
            n == chars@.len(),
            from <= to <= n,
            forall|i: int| to <= i < n ==> white_space(#[trigger] chars@[i]),
        decreases to,
    {
        to = to - 1;
    }
    proof {
        let rest = chars@.skip(from as int);
        lemma_leading_space(chars@, from as int);
        assert forall|i: int| rest.len() - (n - to) <= i < rest.len() implies white_space(
            #[trigger] rest[i],
        ) by {
            assert(rest[i] == chars@[i + from]);
        }
        lemma_trailing_space(rest, n - to);
        assert(chars@.subrange(from as int, to as int) =~= trimmed(chars@));
    }
    text_of(&chars, from, to)
}

/// The digit of a number below ten.
pub open spec fn digit(n: nat) -> char {
    if n == 0 {
        '0'
    } else if n == 1 {
        '1'
    } else if n == 2 {
        '2'
    } else if n == 3 {
        '3'
    } else if n == 4 {
        '4'
    } else if n == 5 {
        '5'
    } else if n == 6 {
        '6'
    } else if n == 7 {
        '7'
    } else if n == 8 {
        '8'
    } else {
        '9'
    }
}

/// A number in decimal digits.
pub open spec fn decimal(n: nat) -> Seq<char>
    decreases n,
{
    if n < 10 {
        seq![digit(n)]
    } else {
        decimal(n / 10).push(digit(n % 10))
    }
}

/// A number in decimal digits.
pub fn decimal_text(n: u64) -> (text: String)
    ensures
        text@ == decimal(n as nat),
    decreases n,
{
    let mut text = if n < 10 {
        String::new()
    } else {
        decimal_text(n / 10)
    };
    let d: u64 = n % 10;
    let c = match d {
        0 => '0',
        1 => '1',
        2 => '2',
        3 => '3',
        4 => '4',
        5 => '5',
        6 => '6',
        7 => '7',
        8 => '8',
        _ => '9',
    };
    text.push(c);
    assert(n < 10 ==> text@ =~= seq![digit(n as nat)]);
    text
}

/// A text, a number and another text in one.
pub fn with_number(before: &str, n: usize, after: &str) -> (text: String)
    ensures
        text@ == before@ + decimal(n as nat) + after@,
{
    let mut text = before.to_owned();
    text.append(decimal_text(n as u64).as_str());
    text.append(after);
    text
}

/// A text in which every `from` is replaced by `to`, searched for from left to right.
pub open spec fn replaced(text: Seq<char>, from: Seq<char>, to: Seq<char>) -> Seq<char>
    decreases text.len(),
{
    if text.len() == 0 || from.len() == 0 {
        text
    } else if from.is_prefix_of(text) {
        to + replaced(text.skip(from.len() as int), from, to)
    } else {
        seq![text[0]] + replaced(text.skip(1), from, to)
    }
}

/// Whether `text[from..]` begins with `part`.
pub fn stands_at(text: &Vec<char>, from: usize, part: &Vec<char>) -> (r: bool)
    requires
        from <= text@.len(),
    ensures
        r == part@.is_prefix_of(text@.skip(from as int)),
{
    let n = text.len();
    if part.len() > n - from {
        return false;
    }
    for k in 0..part.len()
        invariant
            n == text@.len(),
            from + part@.len() <= n,
            forall|j: int| 0 <= j < k ==> #[trigger] part@[j] == text@[from + j],
    {
        if part[k] != text[from + k] {
            assert(text@.skip(from as int)[k as int] == text@[from + k]);
            return false;
        }
    }
    assert(part@ =~= text@.skip(from as int).take(part@.len() as int));
    true
}

/// A text in which every `from` is replaced by `to`, searched for from left to right.
pub fn replace(text: &str, from: &str, to: &str) -> (r: String)
    requires
        from@.len() > 0,
    ensures
        r@ == replaced(text@, from@, to@),
{
    let chars = characters(text);
    let part = characters(from);
    let n = chars.len();
    let mut out = String::new();
    let mut i: usize = 0;
    assert(chars@.skip(0) =~= chars@);
    assert(out@ + replaced(chars@, from@, to@) =~= replaced(chars@, from@, to@));
    while i < n
        invariant
            n == chars@.len(),
            part@ == from@,
            from@.len() > 0,
            i <= n,
            out@ + replaced(chars@.skip(i as int), from@, to@) == replaced(chars@, from@, to@),
        decreases n - i,
    {
        let ghost rest = chars@.skip(i as int);
        let ghost before = out@;
        if stands_at(&chars, i, &part) {
            out.append(to);
            i = i + part.len();
            proof {
                assert(rest.skip(part@.len() as int) =~= chars@.skip(i as int));
                let more = replaced(chars@.skip(i as int), from@, to@);
                assert(before + (to@ + more) =~= out@ + more);
            }
        } else {
            out.push(chars[i]);
            i = i + 1;
            proof {
                assert(rest.skip(1) =~= chars@.skip(i as int));
                let more = replaced(chars@.skip(i as int), from@, to@);
                assert(before + (seq![rest[0]] + more) =~= out@ + more);
            }
        }
    }
    assert(chars@.skip(n as int) =~= seq![]);
    assert(out@ + seq![] =~= out@);
    out
}

proof fn lemma_spaces_bounded(text: Seq<char>)
    ensures
        leading_space(text) <= text.len(),
        forall|i: int| 0 <= i < leading_space(text) ==> white_space(#[trigger] text[i]),
        leading_space(text) < text.len() ==> !white_space(text[leading_space(text) as int]),
        trailing_space(text) <= text.len(),
        forall|i: int|
            text.len() - trailing_space(text) <= i < text.len() ==> white_space(#[trigger] text[i]),
        trailing_space(text) < text.len() ==> !white_space(
            text[text.len() - trailing_space(text) - 1],
        ),
    decreases text.len(),
{
    if text.len() > 0 {
        let rest = text.skip(1);
        lemma_spaces_bounded(rest);
        lemma_spaces_bounded(text.drop_last());
        if white_space(text[0]) {
            assert forall|i: int| 0 <= i < leading_space(text) implies white_space(
                #[trigger] text[i],
            ) by {
                if i > 0 {
                    assert(white_space(rest[i - 1]));
                }
            }
        }
        if white_space(text.last()) {
            let front = text.drop_last();
            assert forall|i: int| text.len() - trailing_space(text) <= i < text.len() implies
                white_space(#[trigger] text[i]) by {
                if i < front.len() {
                    assert(white_space(front[i]));
                }
            }
        }
    }
}

/// Trimming takes away white space only, at the two ends, and leaves none there.
pub proof fn law_trimming(text: Seq<char>) -> (ends: (int, int))
    ensures
        0 <= ends.0 <= ends.1 <= text.len(),
        trimmed(text) == text.subrange(ends.0, ends.1),
        forall|i: int| 0 <= i < ends.0 ==> white_space(#[trigger] text[i]),
        forall|i: int| ends.1 <= i < text.len() ==> white_space(#[trigger] text[i]),
        ends.0 < ends.1 ==> !white_space(text[ends.0]) && !white_space(text[ends.1 - 1]),
{
    lemma_spaces_bounded(text);
    let from = leading_space(text) as int;
    let rest = text.skip(from);
    lemma_spaces_bounded(rest);
    let to = from + rest.len() - trailing_space(rest);
    assert(trimmed(text) =~= text.subrange(from, to));
    assert forall|i: int| to <= i < text.len() implies white_space(#[trigger] text[i]) by {
        assert(rest[i - from] == text[i]);
    }
    if from < to {
        assert(rest[to - 1 - from] == text[to - 1]);
    }
    (from, to)
}

/// A trimmed text is empty exactly if the text has nothing but white space, and a text
/// without white space at its ends is trimmed already.
pub proof fn law_trimmed_texts(text: Seq<char>)
    ensures
        trimmed(text).len() == 0 <==> (forall|i: int|
            0 <= i < text.len() ==> white_space(#[trigger] text[i])),
        text.len() > 0 && !white_space(text[0]) && !white_space(text.last()) ==> trimmed(text)
            == text,
        trimmed(trimmed(text)) == trimmed(text),
{
    let (from, to) = law_trimming(text);
    let inner = trimmed(text);
    let (a, b) = law_trimming(inner);
    if inner.len() > 0 {
        assert(!white_space(text[from]));
        assert(inner[0] == text[from] && inner.last() == text[to - 1]);
        assert(a == 0) by {
            if a > 0 {
                assert(white_space(inner[0]));
            }
        }
        assert(b == inner.len()) by {
            if b < inner.len() {
                assert(white_space(inner[inner.len() - 1]));
            }
        }
    }
    assert(inner.subrange(a, b) =~= inner);
    if text.len() > 0 && !white_space(text[0]) && !white_space(text.last()) {
        assert(from == 0) by {
            if from > 0 {
                assert(white_space(text[0]));
            }
        }
        assert(to == text.len()) by {
            if to < text.len() {
                assert(white_space(text[text.len() - 1]));
            }
        }
        assert(text.subrange(from, to) =~= text);
    }
}

/// A number is written in decimal digits, the highest first, without a zero in front; read
/// as such, the digits give the number again.
pub proof fn law_decimal_digits(n: nat)
    ensures
        decimal(n).len() > 0,
        forall|i: int| 0 <= i < decimal(n).len() ==> '0' <= #[trigger] decimal(n)[i] <= '9',
        decimal(n)[0] == '0' ==> n == 0 && decimal(n).len() == 1,
        decimal(n).fold_left(0int, |value: int, c: char| 10 * value + (c as u32 - '0' as u32))
            == n,
    decreases n,
{
    let read = |value: int, c: char| 10 * value + (c as u32 - '0' as u32);
    let text = decimal(n);
    if n < 10 {
        reveal_with_fuel(Seq::fold_left, 2);
        assert(text.drop_last() =~= seq![]);
        assert(text.last() == digit(n));
    } else {
        law_decimal_digits(n / 10);
        assert(text.drop_last() =~= decimal(n / 10));
        reveal_with_fuel(Seq::fold_left, 1);
        assert(text.fold_left(0int, read) == read(
            text.drop_last().fold_left(0int, read),
            text.last(),
        ));
        assert(n == 10 * (n / 10) + n % 10);
    }
}

/// Where what is searched for stands for the first time after `before`, it is replaced
/// there, and the search goes on behind it.
pub proof fn law_first_occurrence_is_replaced(
    before: Seq<char>,
    from: Seq<char>,
    after: Seq<char>,
    to: Seq<char>,
)
    requires
        from.len() > 0,
        forall|i: int|
            0 <= i < before.len() ==> !from.is_prefix_of(
                #[trigger] (before + from + after).skip(i),
            ),
    ensures
        replaced(before + from + after, from, to) == before + to + replaced(after, from, to),
    decreases before.len(),
{
    let text = before + from + after;
    if before.len() == 0 {
        assert(text.skip(0) =~= text);
        assert(text.take(from.len() as int) =~= from);
        assert(text.skip(from.len() as int) =~= after);
        assert(before + to + replaced(after, from, to) =~= to + replaced(after, from, to));
    } else {
        let rest = before.skip(1);
        assert(text.skip(0) =~= text);
        assert(!from.is_prefix_of(text.skip(0)));
        assert(text.skip(1) =~= rest + from + after);
        assert forall|i: int| 0 <= i < rest.len() implies !from.is_prefix_of(
            #[trigger] (rest + from + after).skip(i),
        ) by {
            assert((rest + from + after).skip(i) =~= text.skip(i + 1));
        }
        law_first_occurrence_is_replaced(rest, from, after, to);
        assert(seq![text[0]] + (rest + to + replaced(after, from, to)) =~= before + to + replaced(
            after,
            from,
            to,
        ));
    }
}

/// A text in which what is searched for does not stand stays as it is.
pub proof fn law_nothing_to_replace(text: Seq<char>, from: Seq<char>, to: Seq<char>)
    requires
        forall|i: int| 0 <= i < text.len() ==> !from.is_prefix_of(#[trigger] text.skip(i)),
    ensures
        replaced(text, from, to) == text,
    decreases text.len(),
{
    if text.len() > 0 {
        let rest = text.skip(1);
        assert(text.skip(0) =~= text);
        assert(!from.is_prefix_of(text.skip(0)));
        assert forall|i: int| 0 <= i < rest.len() implies !from.is_prefix_of(
            #[trigger] rest.skip(i),
        ) by {
            assert(rest.skip(i) =~= text.skip(i + 1));
        }
        law_nothing_to_replace(rest, from, to);
        assert(seq![text[0]] + rest =~= text);
    }
}

} // verus!
