//! The orders in which datasets list their parts.
use crate::text::{path_parts, same_text, split_path, texts};
use vstd::prelude::*;
use vstd::utf8::encode_utf8;

verus! {

/// The order of sequences by their first difference, where a sequence comes before those that it
/// starts.
pub open spec fn lex_before(a: Seq<int>, b: Seq<int>) -> bool
    decreases a.len(),
{
    if b.len() == 0 {
        false
    } else if a.len() == 0 {
        true
    } else if a[0] != b[0] {
        a[0] < b[0]
    } else {
        lex_before(a.skip(1), b.skip(1))
    }
}

/// Nothing comes before itself, and of two different sequences exactly one comes before the other.
pub proof fn lemma_lex_total(a: Seq<int>, b: Seq<int>)
    ensures
        a == b ==> !lex_before(a, b),
        a != b ==> lex_before(a, b) != lex_before(b, a),
    decreases a.len(),
{
    if a.len() > 0 && b.len() > 0 {
        if a[0] == b[0] {
            lemma_lex_total(a.skip(1), b.skip(1));
            if a.skip(1) == b.skip(1) {
                assert(a == seq![a[0]] + a.skip(1));
                assert(b == seq![b[0]] + b.skip(1));
            }
        }
    } else if a.len() == 0 && b.len() == 0 {
        assert(a == b);
    }
}

/// The order carries over.
pub proof fn lemma_lex_transitive(a: Seq<int>, b: Seq<int>, c: Seq<int>)
    requires
        lex_before(a, b),
        lex_before(b, c),
    ensures
        lex_before(a, c),
    decreases a.len(),
{
    if a.len() > 0 && a[0] == b[0] && b[0] == c[0] {
        lemma_lex_transitive(a.skip(1), b.skip(1), c.skip(1));
    }
}

/// The ranks of the bytes of a text: their numbers.
pub open spec fn ranks(text: Seq<char>) -> Seq<int> {
    encode_utf8(text).map_values(|byte: u8| byte as int)
}

/// The order of texts by their bytes.
pub open spec fn text_before(a: Seq<char>, b: Seq<char>) -> bool {
    lex_before(ranks(a), ranks(b))
}

/// The ranks of a part of a path. The way up comes before every name.
pub open spec fn part_ranks(part: Seq<char>) -> Seq<int> {
    if part == ".."@ {
        seq![-2int]
    } else {
        ranks(part)
    }
}

/// The ranks of the parts of a path, each with an end that comes before whatever goes on.
pub open spec fn parts_ranks(parts: Seq<Seq<char>>) -> Seq<int>
    decreases parts.len(),
{
    if parts.len() == 0 {
        Seq::empty()
    } else {
        parts_ranks(parts.drop_last()) + part_ranks(parts.last()).push(-1)
    }
}

/// The order of paths below a directory: by their first part, then by the next.
pub open spec fn path_before(a: Seq<char>, b: Seq<char>) -> bool {
    lex_before(parts_ranks(path_parts(a)), parts_ranks(path_parts(b)))
}

/// Different texts have different ranks.
pub proof fn lemma_ranks_distinct(a: Seq<char>, b: Seq<char>)
    requires
        ranks(a) == ranks(b),
    ensures
        a == b,
{
    let x = encode_utf8(a);
    let y = encode_utf8(b);
    vstd::utf8::encode_utf8_decode_utf8(a);
    vstd::utf8::encode_utf8_decode_utf8(b);
    assert(x.len() == ranks(a).len());
    assert(y.len() == ranks(b).len());
    assert forall|i: int| 0 <= i < x.len() implies x[i] == y[i] by {
        assert(ranks(a)[i] == x[i] as int);
        assert(ranks(b)[i] == y[i] as int);
    }
    assert(x =~= y);
}

/// Of two texts at most one comes before the other, and neither does only where they are the same.
pub proof fn lemma_text_order(a: Seq<char>, b: Seq<char>)
    ensures
        a == b ==> !text_before(a, b),
        a != b ==> text_before(a, b) != text_before(b, a),
{
    lemma_lex_total(ranks(a), ranks(b));
    if a != b && ranks(a) == ranks(b) {
        lemma_ranks_distinct(a, b);
    }
}

proof fn lemma_part_ranks(part: Seq<char>, i: int)
    requires
        0 <= i < part_ranks(part).len(),
    ensures
        part_ranks(part)[i] != -1,
{
    if part != ".."@ {
        assert(ranks(part)[i] == encode_utf8(part)[i] as int);
    }
}

proof fn lemma_part_ranks_distinct(a: Seq<char>, b: Seq<char>)
    requires
        part_ranks(a) == part_ranks(b),
    ensures
        a == b,
{
    if a == ".."@ {
        if b != ".."@ {
            assert(part_ranks(a)[0] == -2 && ranks(b).len() == 1);
            assert(ranks(b)[0] == encode_utf8(b)[0] as int);
        }
    } else if b == ".."@ {
        assert(part_ranks(b)[0] == -2 && ranks(a).len() == 1);
        assert(ranks(a)[0] == encode_utf8(a)[0] as int);
    } else {
        lemma_ranks_distinct(a, b);
    }
}

proof fn lemma_ranks_end(parts: Seq<Seq<char>>)
    ensures
        parts.len() > 0 ==> parts_ranks(parts).len() > 0 && parts_ranks(parts).last() == -1,
{
}

/// Different parts have different ranks.
proof fn lemma_parts_ranks_distinct(a: Seq<Seq<char>>, b: Seq<Seq<char>>)
    requires
        parts_ranks(a) == parts_ranks(b),
    ensures
        a == b,
    decreases a.len(),
{
    lemma_ranks_end(a);
    lemma_ranks_end(b);
    if a.len() > 0 && b.len() > 0 {
        let whole = parts_ranks(a);
        let p = parts_ranks(a.drop_last());
        let q = parts_ranks(b.drop_last());
        let x = part_ranks(a.last());
        let y = part_ranks(b.last());
        lemma_ranks_end(a.drop_last());
        lemma_ranks_end(b.drop_last());
        assert(whole == p + x.push(-1));
        assert(whole == q + y.push(-1));
        assert(p.len() + x.len() == q.len() + y.len());
        if p.len() < q.len() {
            let at = q.len() - 1;
            assert(whole[at] == -1);
            assert(whole[at] == x[at - p.len()]);
            lemma_part_ranks(a.last(), at - p.len());
        } else if q.len() < p.len() {
            let at = p.len() - 1;
            assert(whole[at] == -1);
            assert(whole[at] == y[at - q.len()]);
            lemma_part_ranks(b.last(), at - q.len());
        }
        assert(p =~= whole.take(p.len() as int));
        assert(q =~= whole.take(q.len() as int));
        assert(x =~= whole.subrange(p.len() as int, whole.len() - 1));
        assert(y =~= whole.subrange(q.len() as int, whole.len() - 1));
        lemma_part_ranks_distinct(a.last(), b.last());
        lemma_parts_ranks_distinct(a.drop_last(), b.drop_last());
        assert(a =~= a.drop_last().push(a.last()));
        assert(b =~= b.drop_last().push(b.last()));
    } else {
        assert(a =~= b);
    }
}

/// Of two paths at most one comes before the other, and neither does only where their parts are the
/// same.
pub proof fn lemma_path_order(a: Seq<char>, b: Seq<char>)
    ensures
        path_parts(a) == path_parts(b) ==> !path_before(a, b),
        path_parts(a) != path_parts(b) ==> path_before(a, b) != path_before(b, a),
{
    let x = parts_ranks(path_parts(a));
    let y = parts_ranks(path_parts(b));
    lemma_lex_total(x, y);
    if path_parts(a) != path_parts(b) && x == y {
        lemma_parts_ranks_distinct(path_parts(a), path_parts(b));
    }
}

/// The order of paths carries over.
pub proof fn lemma_path_transitive(a: Seq<char>, b: Seq<char>, c: Seq<char>)
    requires
        path_before(a, b),
        path_before(b, c),
    ensures
        path_before(a, c),
{
    lemma_lex_transitive(
        parts_ranks(path_parts(a)),
        parts_ranks(path_parts(b)),
        parts_ranks(path_parts(c)),
    );
}

/// The numbers of a row as whole numbers.
spec fn wide(numbers: Seq<i16>) -> Seq<int> {
    numbers.map_values(|n: i16| n as int)
}

fn push_ranks(numbers: &mut Vec<i16>, text: &str)
    ensures
        wide(final(numbers)@) == wide(old(numbers)@) + ranks(text@),
{
    let bytes = text.as_bytes();
    let ghost before = wide(numbers@);
    let mut i: usize = 0;
    assert(wide(numbers@) =~= before + ranks(text@).take(0));
    while i < bytes.len()
        invariant
            0 <= i <= bytes@.len(),
            bytes@ == encode_utf8(text@),
            wide(numbers@) == before + ranks(text@).take(i as int),
        decreases bytes@.len() - i,
    {
        let ghost sofar = wide(numbers@);
        numbers.push(bytes[i] as i16);
        assert(wide(numbers@) =~= sofar.push(bytes@[i as int] as int));
        assert(ranks(text@).take(i + 1) =~= ranks(text@).take(i as int).push(
            bytes@[i as int] as int,
        ));
        i = i + 1;
        assert(wide(numbers@) =~= before + ranks(text@).take(i as int));
    }
    assert(ranks(text@).take(i as int) =~= ranks(text@));
}

fn path_ranks(path: &str) -> (numbers: Vec<i16>)
    ensures
        wide(numbers@) == parts_ranks(path_parts(path@)),
{
    let parts = split_path(path);
    let ghost views = texts(parts@);
    let mut numbers: Vec<i16> = Vec::new();
    let mut i: usize = 0;
    assert(wide(numbers@) =~= parts_ranks(views.take(0)));
    while i < parts.len()
        invariant
            0 <= i <= parts@.len(),
            views == texts(parts@),
            wide(numbers@) == parts_ranks(views.take(i as int)),
        decreases parts@.len() - i,
    {
        let ghost before = wide(numbers@);
        assert(views.take(i + 1).drop_last() == views.take(i as int));
        assert(views[i as int] == parts@[i as int]@);
        if same_text(parts[i].as_str(), "..") {
            numbers.push(-2);
        } else {
            push_ranks(&mut numbers, parts[i].as_str());
        }
        assert(wide(numbers@) =~= before + part_ranks(views[i as int]));
        let ghost middle = wide(numbers@);
        numbers.push(-1);
        assert(wide(numbers@) =~= middle.push(-1));
        assert(wide(numbers@) =~= before + part_ranks(views[i as int]).push(-1));
        i = i + 1;
    }
    assert(views.take(i as int) == views);
    numbers
}

fn is_lex_before(x: &Vec<i16>, y: &Vec<i16>) -> (answer: bool)
    ensures
        answer == lex_before(wide(x@), wide(y@)),
{
    let ghost left = wide(x@);
    let ghost right = wide(y@);
    let mut i: usize = 0;
    assert(left.skip(0) == left);
    assert(right.skip(0) == right);
    while i < x.len() && i < y.len()
        invariant
            0 <= i <= x@.len(),
            i <= y@.len(),
            left == wide(x@),
            right == wide(y@),
            lex_before(left, right) == lex_before(left.skip(i as int), right.skip(i as int)),
        decreases x@.len() - i,
    {
        assert(left.skip(i as int)[0] == x@[i as int]);
        assert(right.skip(i as int)[0] == y@[i as int]);
        if x[i] != y[i] {
            return x[i] < y[i];
        }
        assert(left.skip(i as int).skip(1) == left.skip(i + 1));
        assert(right.skip(i as int).skip(1) == right.skip(i + 1));
        i = i + 1;
    }
    i < y.len()
}

/// Whether a text comes before another.
pub fn is_text_before(a: &str, b: &str) -> (answer: bool)
    ensures
        answer == text_before(a@, b@),
{
    let mut x: Vec<i16> = Vec::new();
    let mut y: Vec<i16> = Vec::new();
    push_ranks(&mut x, a);
    push_ranks(&mut y, b);
    assert(wide(x@) =~= ranks(a@));
    assert(wide(y@) =~= ranks(b@));
    is_lex_before(&x, &y)
}

/// Whether a path below a directory comes before another.
pub fn is_path_before(a: &str, b: &str) -> (answer: bool)
    ensures
        answer == path_before(a@, b@),
{
    is_lex_before(&path_ranks(a), &path_ranks(b))
}

/// How many of the numbers at the front are below `n`.
pub open spec fn below_count(numbers: Seq<u32>, n: u32) -> int
    decreases numbers.len(),
{
    if numbers.len() == 0 || numbers[0] >= n {
        0
    } else {
        1 + below_count(numbers.skip(1), n)
    }
}

/// A rising row of numbers with one more in its place, where it is not there yet.
pub open spec fn with_number(numbers: Seq<u32>, n: u32) -> Seq<u32> {
    let at = below_count(numbers, n);
    if at < numbers.len() && numbers[at] == n {
        numbers
    } else {
        numbers.insert(at, n)
    }
}

/// The given numbers in rising order, each once.
pub open spec fn sorted_distinct(numbers: Seq<u32>) -> Seq<u32>
    decreases numbers.len(),
{
    if numbers.len() == 0 {
        Seq::empty()
    } else {
        with_number(sorted_distinct(numbers.drop_last()), numbers.last())
    }
}

/// Each number is below those that follow it.
pub open spec fn rising(numbers: Seq<u32>) -> bool {
    forall|i: int, j: int| 0 <= i < j < numbers.len() ==> numbers[i] < numbers[j]
}

proof fn lemma_below_count(numbers: Seq<u32>, n: u32)
    ensures
        0 <= below_count(numbers, n) <= numbers.len(),
        forall|i: int| 0 <= i < below_count(numbers, n) ==> numbers[i] < n,
        below_count(numbers, n) < numbers.len() ==> numbers[below_count(numbers, n)] >= n,
    decreases numbers.len(),
{
    if numbers.len() > 0 && numbers[0] < n {
        let rest = numbers.skip(1);
        lemma_below_count(rest, n);
        assert forall|i: int| 0 <= i < below_count(numbers, n) implies numbers[i] < n by {
            if i > 0 {
                assert(rest[i - 1] == numbers[i]);
            }
        }
    }
}

proof fn lemma_with_number(numbers: Seq<u32>, n: u32)
    requires
        rising(numbers),
    ensures
        rising(with_number(numbers, n)),
        forall|k: u32| with_number(numbers, n).contains(k) <==> numbers.contains(k) || k == n,
{
    lemma_below_count(numbers, n);
    let at = below_count(numbers, n);
    let result = with_number(numbers, n);
    if at < numbers.len() && numbers[at] == n {
    } else {
        assert(result[at] == n);
        assert forall|k: u32| result.contains(k) implies numbers.contains(k) || k == n by {
            let i = choose|i: int| 0 <= i < result.len() && result[i] == k;
            if i < at {
                assert(numbers[i] == k);
            } else if i > at {
                assert(numbers[i - 1] == k);
            }
        }
        assert forall|k: u32| numbers.contains(k) || k == n implies result.contains(k) by {
            if numbers.contains(k) {
                let i = choose|i: int| 0 <= i < numbers.len() && numbers[i] == k;
                if i < at {
                    assert(result[i] == k);
                } else {
                    assert(result[i + 1] == k);
                }
            }
        }
    }
}

/// Sorting without repetition gives rising numbers, and the same ones.
pub proof fn law_sorted_distinct(numbers: Seq<u32>)
    ensures
        rising(sorted_distinct(numbers)),
        forall|k: u32| sorted_distinct(numbers).contains(k) <==> numbers.contains(k),
    decreases numbers.len(),
{
    if numbers.len() > 0 {
        let front = numbers.drop_last();
        law_sorted_distinct(front);
        lemma_with_number(sorted_distinct(front), numbers.last());
        assert forall|k: u32| front.contains(k) || k == numbers.last() implies numbers.contains(
            k,
        ) by {
            if front.contains(k) {
                let i = choose|i: int| 0 <= i < front.len() && front[i] == k;
                assert(numbers[i] == k);
            } else {
                assert(numbers[numbers.len() - 1] == k);
            }
        }
        assert forall|k: u32| numbers.contains(k) implies front.contains(k) || k
            == numbers.last() by {
            let i = choose|i: int| 0 <= i < numbers.len() && numbers[i] == k;
            if i < front.len() {
                assert(front[i] == k);
            }
        }
    }
}

/// Puts a number in its place in a rising row, where it is not there yet.
pub fn add_number(numbers: &mut Vec<u32>, n: u32)
    ensures
        final(numbers)@ == with_number(old(numbers)@, n),
{
    let ghost whole = numbers@;
    let mut at: usize = 0;
    assert(whole.skip(0) == whole);
    while at < numbers.len() && numbers[at] < n
        invariant
            0 <= at <= whole.len(),
            numbers@ == whole,
            below_count(whole, n) == at + below_count(whole.skip(at as int), n),
        decreases whole.len() - at,
    {
        assert(whole.skip(at as int).skip(1) == whole.skip(at + 1));
        at = at + 1;
    }
    if at < numbers.len() && numbers[at] == n {
        return ;
    }
    numbers.insert(at, n);
}

/// What sequences have in common at the front does not matter; then the lower number comes first,
/// and a sequence that ends comes before one that goes on.
pub proof fn law_first_difference_decides(common: Seq<int>, a: Seq<int>, b: Seq<int>)
    ensures
        lex_before(common + a, common + b) == lex_before(a, b),
        a.len() > 0 && b.len() > 0 && a[0] < b[0] ==> lex_before(a, b) && !lex_before(b, a),
        a.len() == 0 && b.len() > 0 ==> lex_before(a, b) && !lex_before(b, a),
    decreases common.len(),
{
    if common.len() > 0 {
        law_first_difference_decides(common.skip(1), a, b);
        assert((common + a).skip(1) =~= common.skip(1) + a);
        assert((common + b).skip(1) =~= common.skip(1) + b);
    } else {
        assert(common + a =~= a);
        assert(common + b =~= b);
    }
}

/// Texts are in the order of their bytes: the first that differs decides, and a text that ends
/// comes before one that goes on.
pub proof fn law_texts_by_their_bytes(a: Seq<char>, b: Seq<char>, i: int)
    requires
        0 <= i <= encode_utf8(a).len(),
        i < encode_utf8(b).len(),
        encode_utf8(a).take(i) == encode_utf8(b).take(i),
        i < encode_utf8(a).len() ==> encode_utf8(a)[i] < encode_utf8(b)[i],
    ensures
        text_before(a, b),
        !text_before(b, a),
{
    let x = ranks(a);
    let y = ranks(b);
    assert forall|k: int| 0 <= k < i implies x.take(i)[k] == y.take(i)[k] by {
        assert(encode_utf8(a).take(i)[k] == encode_utf8(a)[k]);
        assert(encode_utf8(b).take(i)[k] == encode_utf8(b)[k]);
    }
    assert(x.take(i) =~= y.take(i));
    assert(x =~= x.take(i) + x.skip(i));
    assert(y =~= y.take(i) + y.skip(i));
    law_first_difference_decides(x.take(i), x.skip(i), y.skip(i));
    law_first_difference_decides(y.take(i), y.skip(i), x.skip(i));
    assert(y.skip(i)[0] == encode_utf8(b)[i] as int);
    if i < x.len() {
        assert(x.skip(i)[0] == encode_utf8(a)[i] as int);
    }
    law_first_difference_decides(Seq::<int>::empty(), x.skip(i), y.skip(i));
}

proof fn lemma_parts_ranks_add(a: Seq<Seq<char>>, b: Seq<Seq<char>>)
    ensures
        parts_ranks(a + b) == parts_ranks(a) + parts_ranks(b),
    decreases b.len(),
{
    if b.len() == 0 {
        assert(a + b =~= a);
        assert(parts_ranks(a) + parts_ranks(b) =~= parts_ranks(a));
    } else {
        lemma_parts_ranks_add(a, b.drop_last());
        assert((a + b).drop_last() =~= a + b.drop_last());
        assert((a + b).last() == b.last());
        assert(parts_ranks(a + b) =~= parts_ranks(a) + parts_ranks(b));
    }
}

proof fn lemma_ended_before(a: Seq<int>, b: Seq<int>, s: Seq<int>, t: Seq<int>)
    requires
        a != b,
        forall|i: int| 0 <= i < a.len() ==> #[trigger] a[i] > -1,
        forall|i: int| 0 <= i < b.len() ==> #[trigger] b[i] > -1,
    ensures
        lex_before(a.push(-1) + s, b.push(-1) + t) == lex_before(a, b),
    decreases a.len(),
{
    let x = a.push(-1) + s;
    let y = b.push(-1) + t;
    if a.len() == 0 {
        assert(b.len() > 0) by {
            if b.len() == 0 {
                assert(a =~= b);
            }
        }
        assert(x[0] == -1 && y[0] == b[0]);
    } else if b.len() == 0 {
        assert(y[0] == -1 && x[0] == a[0]);
    } else {
        assert(x[0] == a[0] && y[0] == b[0]);
        if a[0] == b[0] {
            let p = a.skip(1);
            let q = b.skip(1);
            if p == q {
                assert(a =~= seq![a[0]] + p);
                assert(b =~= seq![b[0]] + q);
            }
            assert forall|i: int| 0 <= i < p.len() implies #[trigger] p[i] > -1 by {
                assert(p[i] == a[i + 1]);
            }
            assert forall|i: int| 0 <= i < q.len() implies #[trigger] q[i] > -1 by {
                assert(q[i] == b[i + 1]);
            }
            lemma_ended_before(p, q, s, t);
            assert(x.skip(1) =~= p.push(-1) + s);
            assert(y.skip(1) =~= q.push(-1) + t);
        }
    }
}

/// Paths are in the order of their first different parts, whatever follows; the way up comes before
/// every name, and a path comes before those that go on from it.
pub proof fn law_paths_by_their_parts(
    a: Seq<char>,
    b: Seq<char>,
    common: Seq<Seq<char>>,
    x: Seq<char>,
    y: Seq<char>,
    after_x: Seq<Seq<char>>,
    after_y: Seq<Seq<char>>,
)
    requires
        path_parts(a) == common + seq![x] + after_x,
        path_parts(b) == common + seq![y] + after_y,
        x != y,
    ensures
        x != ".."@ && y != ".."@ ==> path_before(a, b) == text_before(x, y),
        x == ".."@ ==> path_before(a, b) && !path_before(b, a),
{
    let head = parts_ranks(common);
    let s = parts_ranks(after_x);
    let t = parts_ranks(after_y);
    lemma_parts_ranks_add(common + seq![x], after_x);
    lemma_parts_ranks_add(common + seq![y], after_y);
    lemma_parts_ranks_add(common, seq![x]);
    lemma_parts_ranks_add(common, seq![y]);
    assert(seq![x].drop_last() =~= Seq::<Seq<char>>::empty());
    assert(seq![y].drop_last() =~= Seq::<Seq<char>>::empty());
    assert(parts_ranks(Seq::<Seq<char>>::empty()) =~= Seq::<int>::empty());
    assert(parts_ranks(seq![x]) =~= part_ranks(x).push(-1));
    assert(parts_ranks(seq![y]) =~= part_ranks(y).push(-1));
    let left = part_ranks(x).push(-1) + s;
    let right = part_ranks(y).push(-1) + t;
    assert(parts_ranks(path_parts(a)) =~= head + left);
    assert(parts_ranks(path_parts(b)) =~= head + right);
    law_first_difference_decides(head, left, right);
    law_first_difference_decides(head, right, left);
    if x != ".."@ && y != ".."@ {
        if ranks(x) == ranks(y) {
            lemma_ranks_distinct(x, y);
        }
        assert forall|i: int| 0 <= i < ranks(x).len() implies #[trigger] ranks(x)[i] > -1 by {
            assert(ranks(x)[i] == encode_utf8(x)[i] as int);
        }
        assert forall|i: int| 0 <= i < ranks(y).len() implies #[trigger] ranks(y)[i] > -1 by {
            assert(ranks(y)[i] == encode_utf8(y)[i] as int);
        }
        lemma_ended_before(ranks(x), ranks(y), s, t);
    }
    if x == ".."@ {
        assert(left[0] == -2);
        if ranks(y).len() > 0 {
            assert(right[0] == ranks(y)[0]);
            assert(ranks(y)[0] == encode_utf8(y)[0] as int);
        } else {
            assert(right[0] == -1);
        }
    }
}

/// A path comes before those that go on from it.
pub proof fn law_paths_before_longer_ones(a: Seq<char>, b: Seq<char>, more: Seq<Seq<char>>)
    requires
        path_parts(b) == path_parts(a) + more,
        more.len() > 0,
    ensures
        path_before(a, b),
        !path_before(b, a),
{
    let head = parts_ranks(path_parts(a));
    lemma_parts_ranks_add(path_parts(a), more);
    lemma_ranks_end(more);
    assert(head =~= head + Seq::<int>::empty());
    law_first_difference_decides(head, Seq::<int>::empty(), parts_ranks(more));
    law_first_difference_decides(head, parts_ranks(more), Seq::<int>::empty());
}

} // verus!
