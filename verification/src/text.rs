//! The text of a conversion file: one conversion per line, `old -> new`, where each block is
//! an id (`35`) or an id and a data value (`35:14`).

use vstd::prelude::*;
use crate::chunk147::Block;

verus! {

/// `char::is_whitespace`: the characters with the Unicode `White_Space` property.
pub open spec fn is_ws(c: char) -> bool {
    let u = c as u32;
    ||| u == 0x20
    ||| 0x09 <= u <= 0x0d
    ||| u == 0x85
    ||| u == 0xa0
    ||| u == 0x1680
    ||| 0x2000 <= u <= 0x200a
    ||| u == 0x2028
    ||| u == 0x2029
    ||| u == 0x202f
    ||| u == 0x205f
    ||| u == 0x3000
}

/// `str::trim`: the text without its leading and trailing whitespace.
pub open spec fn trim(s: Seq<char>) -> Seq<char>
    decreases s.len(),
{
    if s.len() > 0 && is_ws(s[0]) {
        trim(s.drop_first())
    } else if s.len() > 0 && is_ws(s.last()) {
        trim(s.drop_last())
    } else {
        s
    }
}

/// The position of the first `c` in `s`, if any.
pub open spec fn find_char(s: Seq<char>, c: char) -> Option<int>
    decreases s.len(),
{
    if s.len() == 0 {
        None
    } else if s[0] == c {
        Some(0)
    } else {
        match find_char(s.drop_first(), c) {
            Some(i) => Some(i + 1),
            None => None,
        }
    }
}

pub proof fn lemma_find_char(s: Seq<char>, c: char)
    ensures
        find_char(s, c) matches Some(i) ==> 0 <= i < s.len() && s[i] == c && forall|j: int|
            0 <= j < i ==> s[j] != c,
        find_char(s, c) is None ==> forall|j: int| 0 <= j < s.len() ==> s[j] != c,
    decreases s.len(),
{
    if s.len() > 0 && s[0] != c {
        lemma_find_char(s.drop_first(), c);
        assert forall|j: int| 0 < j < s.len() implies s[j] == s.drop_first()[j - 1] by {}
    }
}

/// A line without the `'\r'` that ends it, if any.
pub open spec fn strip_cr(l: Seq<char>) -> Seq<char> {
    if l.len() > 0 && l.last() == '\r' {
        l.drop_last()
    } else {
        l
    }
}

/// `str::lines`: the text cut after each `'\n'`, each piece without its `'\n'` and then
/// without a `'\r'` before it; a last piece without `'\n'` is kept as it is, and an empty
/// text has no lines.
pub open spec fn lines(s: Seq<char>) -> Seq<Seq<char>>
    decreases s.len(),
{
    if s.len() == 0 {
        seq![]
    } else {
        match find_char(s, '\n') {
            Some(i) => {
                proof {
                    lemma_find_char(s, '\n');
                }
                seq![strip_cr(s.take(i))] + lines(s.skip(i + 1))
            },
            None => seq![s],
        }
    }
}

/// The position of the first `"->"` in `s`, if any.
pub open spec fn find_arrow(s: Seq<char>) -> Option<int>
    decreases s.len(),
{
    if s.len() < 2 {
        None
    } else if s[0] == '-' && s[1] == '>' {
        Some(0)
    } else {
        match find_arrow(s.drop_first()) {
            Some(i) => Some(i + 1),
            None => None,
        }
    }
}

/// The first two pieces of `s` split at `"->"`: what stands before the first arrow, and what
/// stands between it and the next one (or the end); none when there is no arrow.
pub open spec fn arrow_pieces(s: Seq<char>) -> Option<(Seq<char>, Seq<char>)> {
    match find_arrow(s) {
        Some(i) => {
            let rest = s.skip(i + 2);
            let second = match find_arrow(rest) {
                Some(j) => rest.take(j),
                None => rest,
            };
            Some((s.take(i), second))
        },
        None => None,
    }
}

/// The value of a non-empty run of decimal digits.
pub open spec fn digits_value(s: Seq<char>) -> int
    decreases s.len(),
{
    if s.len() == 0 {
        0
    } else {
        digits_value(s.drop_last()) * 10 + (s.last() as int - 0x30)
    }
}

/// Every character is a decimal digit.
pub open spec fn all_digits(s: Seq<char>) -> bool {
    forall|i: int| 0 <= i < s.len() ==> '0' <= #[trigger] s[i] <= '9'
}

/// `str::parse` for a signed integer type with range `min ..= max`: an optional `+` or `-`,
/// then at least one decimal digit and nothing else, with a value in range.
pub open spec fn parse_int(s: Seq<char>, min: int, max: int) -> Option<int> {
    let neg = s.len() > 0 && s[0] == '-';
    let digits = if s.len() > 0 && (s[0] == '-' || s[0] == '+') {
        s.drop_first()
    } else {
        s
    };
    let v = if neg {
        -digits_value(digits)
    } else {
        digits_value(digits)
    };
    if digits.len() == 0 || !all_digits(digits) || v < min || v > max {
        None
    } else {
        Some(v)
    }
}

/// The block that `read_id` reads from a piece of text: with a `:`, an `i32` id before it and
/// an `i8` data value after it (up to a second `:`, if any); without, an `i32` id alone.
pub open spec fn block_of(s: Seq<char>) -> Option<Block> {
    match find_char(s, ':') {
        Some(i) => {
            let rest = s.skip(i + 1);
            let second = match find_char(rest, ':') {
                Some(j) => rest.take(j),
                None => rest,
            };
            match (parse_int(s.take(i), i32::MIN as int, i32::MAX as int), parse_int(second, -128, 127)) {
                (Some(id), Some(d)) => Some(Block { id: id as i32, data: Some(d as i8) }),
                _ => None,
            }
        },
        None => match parse_int(s, i32::MIN as int, i32::MAX as int) {
            Some(id) => Some(Block { id: id as i32, data: None }),
            None => None,
        },
    }
}

/// The conversion a line states, when it is well formed.
pub open spec fn conversion_of(line: Seq<char>) -> Option<(Block, Block)> {
    match arrow_pieces(line) {
        Some((o, n)) => match (block_of(trim(o)), block_of(trim(n))) {
            (Some(a), Some(b)) => Some((a, b)),
            _ => None,
        },
        None => None,
    }
}

/// Every line of the text states a conversion.
pub open spec fn well_formed(s: Seq<char>) -> bool {
    forall|i: int| 0 <= i < lines(s).len() ==> #[trigger] conversion_of(lines(s)[i]) is Some
}

/// The conversions the text states, in the order of its lines.
pub open spec fn conversions_of(s: Seq<char>) -> Seq<(Block, Block)> {
    lines(s).map_values(|l: Seq<char>| conversion_of(l)->0)
}

proof fn lemma_find_char_first(s: Seq<char>, c: char, i: int)
    requires
        0 <= i < s.len(),
        s[i] == c,
        forall|j: int| 0 <= j < i ==> s[j] != c,
    ensures
        find_char(s, c) == Some(i),
    decreases i,
{
    if i > 0 {
        assert forall|j: int| 0 <= j < i - 1 implies s.drop_first()[j] != c by {
            assert(s.drop_first()[j] == s[j + 1]);
        }
        lemma_find_char_first(s.drop_first(), c, i - 1);
    }
}

proof fn lemma_find_char_none(s: Seq<char>, c: char)
    requires
        forall|j: int| 0 <= j < s.len() ==> s[j] != c,
    ensures
        find_char(s, c) is None,
    decreases s.len(),
{
    if s.len() > 0 {
        assert forall|j: int| 0 <= j < s.len() - 1 implies s.drop_first()[j] != c by {
            assert(s.drop_first()[j] == s[j + 1]);
        }
        lemma_find_char_none(s.drop_first(), c);
    }
}

/// An arrow starts at position `i` of `s`.
pub open spec fn arrow_at(s: Seq<char>, i: int) -> bool {
    0 <= i && i + 1 < s.len() && s[i] == '-' && s[i + 1] == '>'
}

proof fn lemma_find_arrow_first(s: Seq<char>, i: int)
    requires
        arrow_at(s, i),
        forall|j: int| 0 <= j < i ==> !arrow_at(s, j),
    ensures
        find_arrow(s) == Some(i),
    decreases i,
{
    if i > 0 {
        assert(!arrow_at(s, 0));
        assert forall|j: int| 0 <= j < i - 1 implies !arrow_at(s.drop_first(), j) by {
            assert(!arrow_at(s, j + 1));
        }
        lemma_find_arrow_first(s.drop_first(), i - 1);
    }
}

proof fn lemma_find_arrow_none(s: Seq<char>)
    requires
        forall|j: int| 0 <= j < s.len() ==> !arrow_at(s, j),
    ensures
        find_arrow(s) is None,
    decreases s.len(),
{
    if s.len() >= 2 {
        assert(!arrow_at(s, 0));
        assert forall|j: int| 0 <= j < s.len() - 1 implies !arrow_at(s.drop_first(), j) by {
            assert(!arrow_at(s, j + 1));
        }
        lemma_find_arrow_none(s.drop_first());
    }
}

/// The characters of a text.
fn chars_of(s: &str) -> (r: Vec<char>)
    ensures
        r@ == s@,
{
    let mut r: Vec<char> = Vec::new();
    for c in it: s.chars()
        invariant
            r@ == it.seq().take(it.index() as int),
            it.seq() == s@,
    {
        r.push(c);
        assert(r@ =~= it.seq().take(it.index() + 1));
    }
    assert(r@ =~= s@);
    r
}

fn is_ws_exec(c: char) -> (r: bool)
    ensures
        r == is_ws(c),
{
    let u = c as u32;
    u == 0x20 || (0x09 <= u && u <= 0x0d) || u == 0x85 || u == 0xa0 || u == 0x1680 || (0x2000 <= u
        && u <= 0x200a) || u == 0x2028 || u == 0x2029 || u == 0x202f || u == 0x205f || u == 0x3000
}

/// The first `c` in `v[lo..hi]`.
fn find_char_in(v: &Vec<char>, lo: usize, hi: usize, c: char) -> (r: Option<usize>)
    requires
        lo <= hi <= v.len(),
    ensures
        r matches Some(i) ==> lo <= i < hi && find_char(v@.subrange(lo as int, hi as int), c) == Some(
            i - lo,
        ),
        r is None ==> find_char(v@.subrange(lo as int, hi as int), c) is None,
{
    let ghost sub = v@.subrange(lo as int, hi as int);
    let mut i = lo;
    while i < hi
        invariant
            lo <= i <= hi <= v.len(),
            sub == v@.subrange(lo as int, hi as int),
            forall|j: int| 0 <= j < i - lo ==> sub[j] != c,
        decreases hi - i,
    {
        if v[i] == c {
            proof {
                lemma_find_char_first(sub, c, i - lo);
            }
            return Some(i);
        }
        i = i + 1;
    }
    proof {
        lemma_find_char_none(sub, c);
    }
    None
}

/// The first arrow in `v[lo..hi]`.
fn find_arrow_in(v: &Vec<char>, lo: usize, hi: usize) -> (r: Option<usize>)
    requires
        lo <= hi <= v.len(),
    ensures
        r matches Some(i) ==> lo <= i && i + 2 <= hi && find_arrow(
            v@.subrange(lo as int, hi as int),
        ) == Some(i - lo),
        r is None ==> find_arrow(v@.subrange(lo as int, hi as int)) is None,
{
    let ghost sub = v@.subrange(lo as int, hi as int);
    let mut i = lo;
    while hi - i >= 2
        invariant
            lo <= i <= hi <= v.len(),
            sub == v@.subrange(lo as int, hi as int),
            forall|j: int| 0 <= j < i - lo ==> !arrow_at(sub, j),
        decreases hi - i,
    {
        if v[i] == '-' && v[i + 1] == '>' {
            proof {
                lemma_find_arrow_first(sub, i - lo);
            }
            return Some(i);
        }
        i = i + 1;
    }
    proof {
        lemma_find_arrow_none(sub);
    }
    None
}

/// The bounds of `v[lo..hi]` with leading and trailing whitespace left out.
fn trim_range(v: &Vec<char>, lo: usize, hi: usize) -> (r: (usize, usize))
    requires
        lo <= hi <= v.len(),
    ensures
        lo <= r.0 <= r.1 <= hi,
        v@.subrange(r.0 as int, r.1 as int) == trim(v@.subrange(lo as int, hi as int)),
{
    let ghost whole = trim(v@.subrange(lo as int, hi as int));
    let mut a = lo;
    while a < hi && is_ws_exec(v[a])
        invariant
            lo <= a <= hi <= v.len(),
            whole == trim(v@.subrange(a as int, hi as int)),
        decreases hi - a,
    {
        assert(v@.subrange(a as int, hi as int).drop_first() =~= v@.subrange(a + 1, hi as int));
        a = a + 1;
    }
    let mut b = hi;
    while b > a && is_ws_exec(v[b - 1])
        invariant
            lo <= a <= b <= hi <= v.len(),
            whole == trim(v@.subrange(a as int, b as int)),
            a < b ==> !is_ws(v@[a as int]),
        decreases b - a,
    {
        let ghost cur = v@.subrange(a as int, b as int);
        assert(cur.drop_last() =~= v@.subrange(a as int, b - 1));
        assert(cur[0] == v@[a as int]);
        b = b - 1;
    }
    proof {
        let cur = v@.subrange(a as int, b as int);
        if a < b {
            assert(cur[0] == v@[a as int]);
            assert(cur.last() == v@[b - 1]);
        }
    }
    (a, b)
}

proof fn lemma_digits_value_nonneg(s: Seq<char>)
    requires
        all_digits(s),
    ensures
        digits_value(s) >= 0,
    decreases s.len(),
{
    if s.len() > 0 {
        assert(all_digits(s.drop_last())) by {
            assert forall|i: int| 0 <= i < s.drop_last().len() implies '0' <= #[trigger] s.drop_last()[i]
                <= '9' by {
                assert(s.drop_last()[i] == s[i]);
            }
        }
        lemma_digits_value_nonneg(s.drop_last());
        assert('0' <= s[s.len() - 1] <= '9');
    }
}

/// `str::parse` of `v[lo..hi]` for a signed integer type with range `min ..= max`.
fn parse_int_in(v: &Vec<char>, lo: usize, hi: usize, min: i64, max: i64) -> (r: Option<i64>)
    requires
        lo <= hi <= v.len(),
        -1_000_000_000_000 <= min <= max <= 1_000_000_000_000,
    ensures
        r == (match parse_int(v@.subrange(lo as int, hi as int), min as int, max as int) {
            Some(x) => Some(x as i64),
            None => None,
        }),
{
    let ghost s = v@.subrange(lo as int, hi as int);
    let mut i = lo;
    let mut neg = false;
    if i < hi && v[i] == '-' {
        neg = true;
        i = i + 1;
    } else if i < hi && v[i] == '+' {
        i = i + 1;
    }
    let start = i;
    let ghost digits = v@.subrange(start as int, hi as int);
    assert(digits =~= (if s.len() > 0 && (s[0] == '-' || s[0] == '+') {
        s.drop_first()
    } else {
        s
    }));
    assert(neg == (s.len() > 0 && s[0] == '-'));
    if i == hi {
        return None;
    }
    let mut acc: u64 = 0;
    let mut big = false;
    while i < hi
        invariant
            start <= i <= hi <= v.len(),
            lo <= start,
            digits == v@.subrange(start as int, hi as int),
            s == v@.subrange(lo as int, hi as int),
            digits == (if s.len() > 0 && (s[0] == '-' || s[0] == '+') {
                s.drop_first()
            } else {
                s
            }),
            neg == (s.len() > 0 && s[0] == '-'),
            -1_000_000_000_000 <= min <= max <= 1_000_000_000_000,
            all_digits(v@.subrange(start as int, i as int)),
            !big ==> acc == digits_value(v@.subrange(start as int, i as int)),
            !big ==> acc <= 10_000_000_000_000,
            big ==> digits_value(v@.subrange(start as int, i as int)) > 10_000_000_000_000,
        decreases hi - i,
    {
        let ghost prev = v@.subrange(start as int, i as int);
        let ghost next = v@.subrange(start as int, i + 1);
        assert(next.drop_last() =~= prev);
        let c = v[i];
        if !('0' <= c && c <= '9') {
            assert(digits[i - start] == c);
            assert(!all_digits(digits));
            return None;
        }
        let u = c as u32;
        assert(u as int == c as int);
        assert(all_digits(next)) by {
            assert forall|k: int| 0 <= k < next.len() implies '0' <= #[trigger] next[k] <= '9' by {
                if k < prev.len() {
                    assert(next[k] == prev[k]);
                }
            }
        }
        proof {
            lemma_digits_value_nonneg(prev);
        }
        if !big {
            acc = acc * 10 + (u - 0x30) as u64;
            if acc > 10_000_000_000_000 {
                big = true;
            }
        }
        i = i + 1;
    }
    assert(v@.subrange(start as int, i as int) =~= digits);
    if big {
        return None;
    }
    let value: i64 = if neg {
        -(acc as i64)
    } else {
        acc as i64
    };
    if value < min || value > max {
        None
    } else {
        Some(value)
    }
}

/// The block of `v[lo..hi]`, as `block_of` reads it.
fn block_in(v: &Vec<char>, lo: usize, hi: usize) -> (r: Option<Block>)
    requires
        lo <= hi <= v.len(),
    ensures
        r == block_of(v@.subrange(lo as int, hi as int)),
{
    let ghost s = v@.subrange(lo as int, hi as int);
    match find_char_in(v, lo, hi, ':') {
        Some(i) => {
            let second_end = match find_char_in(v, i + 1, hi, ':') {
                Some(j) => {
                    assert(s.skip(i - lo + 1).take(j - (i + 1)) =~= v@.subrange(i + 1, j as int));
                    j
                },
                None => hi,
            };
            assert(s.take(i - lo) =~= v@.subrange(lo as int, i as int));
            assert(s.skip(i - lo + 1) =~= v@.subrange(i + 1, hi as int));
            let id = parse_int_in(v, lo, i, i32::MIN as i64, i32::MAX as i64);
            let d = parse_int_in(v, i + 1, second_end, -128, 127);
            match (id, d) {
                (Some(id), Some(d)) => Some(Block { id: id as i32, data: Some(d as i8) }),
                _ => None,
            }
        },
        None => {
            assert(s =~= v@.subrange(lo as int, hi as int));
            match parse_int_in(v, lo, hi, i32::MIN as i64, i32::MAX as i64) {
                Some(id) => Some(Block { id: id as i32, data: None }),
                None => None,
            }
        },
    }
}

/// Reads a block written as an id (`35`) or as an id and a data value (`35:14`). The text
/// must be one of the two (`block_of` tells; `parse_conversions` checks whole files).
pub fn read_id(n: &str) -> (r: Block)
    requires
        block_of(n@) is Some,
    ensures
        r == block_of(n@)->0,
{
    let v = chars_of(n);
    assert(v@.subrange(0, v.len() as int) =~= n@);
    match block_in(&v, 0, v.len()) {
        Some(b) => b,
        None => Block { id: 0, data: None },
    }
}

/// The conversion stated by the line `v[lo..hi]`.
fn conversion_in(v: &Vec<char>, lo: usize, hi: usize) -> (r: Option<(Block, Block)>)
    requires
        lo <= hi <= v.len(),
    ensures
        r == conversion_of(v@.subrange(lo as int, hi as int)),
{
    let ghost s = v@.subrange(lo as int, hi as int);
    match find_arrow_in(v, lo, hi) {
        Some(i) => {
            let second_end = match find_arrow_in(v, i + 2, hi) {
                Some(j) => {
                    assert(s.skip(i - lo + 2).take(j - (i + 2)) =~= v@.subrange(i + 2, j as int));
                    j
                },
                None => hi,
            };
            assert(s.take(i - lo) =~= v@.subrange(lo as int, i as int));
            assert(s.skip(i - lo + 2) =~= v@.subrange(i + 2, hi as int));
            let (a0, a1) = trim_range(v, lo, i);
            let (b0, b1) = trim_range(v, i + 2, second_end);
            let old_block = block_in(v, a0, a1);
            let new_block = block_in(v, b0, b1);
            match (old_block, new_block) {
                (Some(a), Some(b)) => Some((a, b)),
                _ => None,
            }
        },
        None => None,
    }
}

/// Reads a conversion file: one conversion per line, `old -> new`, each side trimmed of
/// whitespace. None when some line states no conversion (the file is then malformed).
pub fn parse_conversions(content: &str) -> (r: Option<Vec<(Block, Block)>>)
    ensures
        r is Some <==> well_formed(content@),
        r matches Some(v) ==> v@ == conversions_of(content@),
{
    let v = chars_of(content);
    let len = v.len();
    let ghost all = lines(content@);
    let mut out: Vec<(Block, Block)> = Vec::new();
    let mut pos: usize = 0;
    let ghost mut done: Seq<Seq<char>> = seq![];
    assert(v@.subrange(0, len as int) =~= content@);
    while pos < len
        invariant
            pos <= len == v.len(),
            v@ == content@,
            all == lines(content@),
            all == done + lines(v@.subrange(pos as int, len as int)),
            out@.len() == done.len(),
            forall|k: int| 0 <= k < done.len() ==> conversion_of(#[trigger] done[k]) is Some
                && out@[k] == conversion_of(done[k])->0,
        decreases len - pos,
    {
        let ghost rest = v@.subrange(pos as int, len as int);
        let (line_end, next) = match find_char_in(&v, pos, len, '\n') {
            Some(i) => {
                proof {
                    assert(rest.take(i - pos) =~= v@.subrange(pos as int, i as int));
                    assert(rest.skip(i - pos + 1) =~= v@.subrange(i + 1, len as int));
                }
                let mut e = i;
                if e > pos && v[e - 1] == '\r' {
                    e = e - 1;
                    assert(strip_cr(v@.subrange(pos as int, i as int)) =~= v@.subrange(pos as int, e as int));
                } else {
                    assert(strip_cr(v@.subrange(pos as int, i as int)) =~= v@.subrange(pos as int, e as int));
                }
                (e, i + 1)
            },
            None => (len, len),
        };
        let ghost line = v@.subrange(pos as int, line_end as int);
        assert(lines(rest) =~= seq![line] + lines(v@.subrange(next as int, len as int)));
        match conversion_in(&v, pos, line_end) {
            Some(c) => {
                out.push(c);
            },
            None => {
                assert(all[done.len() as int] == line);
                return None;
            },
        }
        proof {
            done = done.push(line);
        }
        pos = next;
    }
    assert(lines(v@.subrange(len as int, len as int)) =~= Seq::<Seq<char>>::empty());
    assert(done =~= all);
    assert(out@ =~= conversions_of(content@));
    Some(out)
}

} // verus!
