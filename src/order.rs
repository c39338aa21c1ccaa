//! Natural order of outline ids such as `1`, `1-2`, `1-10-3`: segments that
//! both hold integers compare by value, others by their text.
use core::cmp::Ordering;
use vstd::prelude::*;

verus! {

/// The parts of `s` between `-` separators, in order; an id without a
/// separator is one segment, and the empty text is one empty segment.
pub open spec fn segments(s: Seq<char>) -> Seq<Seq<char>>
    decreases s.len(),
{
    if s.len() == 0 {
        seq![Seq::<char>::empty()]
    } else {
        let p = segments(s.drop_last());
        if s.last() == '-' {
            p.push(Seq::<char>::empty())
        } else {
            p.update(p.len() - 1, p.last().push(s.last()))
        }
    }
}

pub open spec fn is_digit(c: char) -> bool {
    '0' <= c && c <= '9'
}

/// The value of a run of decimal digits.
pub open spec fn digits_value(s: Seq<char>) -> nat
    decreases s.len(),
{
    if s.len() == 0 {
        0
    } else {
        digits_value(s.drop_last()) * 10 + digit_value(s.last())
    }
}

pub open spec fn digit_value(c: char) -> nat {
    ((c as u32) - ('0' as u32)) as nat
}

/// One or more decimal digits.
pub open spec fn is_digit_run(s: Seq<char>) -> bool {
    s.len() > 0 && forall|i: int| 0 <= i < s.len() ==> is_digit(#[trigger] s[i])
}

/// What a segment reads as a non-negative integer: a run of decimal digits,
/// of any length, leading zeros allowed.
pub open spec fn segment_value(s: Seq<char>) -> Option<nat> {
    if is_digit_run(s) {
        Some(digits_value(s))
    } else {
        None
    }
}

pub open spec fn count_order(x: int, y: int) -> Ordering {
    if x < y {
        Ordering::Less
    } else if x > y {
        Ordering::Greater
    } else {
        Ordering::Equal
    }
}

/// Lexicographic order of texts by code point (the order of their UTF-8 bytes).
pub open spec fn text_order(a: Seq<char>, b: Seq<char>) -> Ordering
    decreases a.len(),
{
    if a.len() == 0 {
        count_order(0, b.len() as int)
    } else if b.len() == 0 {
        Ordering::Greater
    } else if a[0] != b[0] {
        count_order(a[0] as int, b[0] as int)
    } else {
        text_order(a.drop_first(), b.drop_first())
    }
}

/// Segment by segment: equal integers go on to the next position, unequal ones
/// decide, and a segment that is not an integer on either side decides by text.
/// When one list runs out, the shorter comes first.
pub open spec fn segments_order(x: Seq<Seq<char>>, y: Seq<Seq<char>>) -> Ordering
    decreases x.len(),
{
    if x.len() == 0 || y.len() == 0 {
        count_order(x.len() as int, y.len() as int)
    } else {
        match (segment_value(x[0]), segment_value(y[0])) {
            (Some(n), Some(m)) => if n != m {
                count_order(n as int, m as int)
            } else {
                segments_order(x.drop_first(), y.drop_first())
            },
            _ => text_order(x[0], y[0]),
        }
    }
}

/// The natural order of two outline ids.
#[verifier::opaque]
pub open spec fn natural_order(a: Seq<char>, b: Seq<char>) -> Ordering {
    segments_order(segments(a), segments(b))
}

pub open spec fn flip(o: Ordering) -> Ordering {
    match o {
        Ordering::Less => Ordering::Greater,
        Ordering::Greater => Ordering::Less,
        Ordering::Equal => Ordering::Equal,
    }
}

pub open spec fn views(v: Seq<String>) -> Seq<Seq<char>> {
    v.map_values(|s: String| s@)
}

/// Relies on str::split: the parts of `s` between `-` separators, in order.
#[verifier::external_body]
fn split_segments(s: &str) -> (r: Vec<String>)
    ensures
        views(r@) == segments(s@),
{
    s.split('-').map(|p| p.to_string()).collect()
}

/// Relies on str::chars: the characters of `s`, in order.
#[verifier::external_body]
fn chars_of(s: &str) -> (r: Vec<char>)
    ensures
        r@ == s@,
{
    s.chars().collect()
}

/// Compares two texts by code point, as `str`'s order does for UTF-8.
fn compare_chars(a: &Vec<char>, b: &Vec<char>) -> (r: Ordering)
    ensures
        r == text_order(a@, b@),
{
    let mut i: usize = 0;
    assert(a@.skip(0) =~= a@ && b@.skip(0) =~= b@);
    while i < a.len() && i < b.len()
        invariant
            i <= a.len(),
            i <= b.len(),
            text_order(a@, b@) == text_order(a@.skip(i as int), b@.skip(i as int)),
        decreases a.len() - i,
    {
        let ghost x = a@.skip(i as int);
        let ghost y = b@.skip(i as int);
        assert(x[0] == a@[i as int] && y[0] == b@[i as int]);
        assert(x.drop_first() =~= a@.skip(i + 1));
        assert(y.drop_first() =~= b@.skip(i + 1));
        if a[i] != b[i] {
            return if a[i] < b[i] {
                Ordering::Less
            } else {
                Ordering::Greater
            };
        }
        i = i + 1;
    }
    if a.len() < b.len() {
        Ordering::Less
    } else if a.len() > b.len() {
        Ordering::Greater
    } else {
        Ordering::Equal
    }
}

pub proof fn lemma_segments_nonempty(s: Seq<char>)
    ensures
        segments(s).len() >= 1,
    decreases s.len(),
{
    if s.len() > 0 {
        lemma_segments_nonempty(s.drop_last());
    }
}

fn digit_run(c: &Vec<char>) -> (r: bool)
    ensures
        r == is_digit_run(c@),
{
    if c.len() == 0 {
        return false;
    }
    let mut i: usize = 0;
    while i < c.len()
        invariant
            i <= c.len(),
            forall|j: int| 0 <= j < i ==> is_digit(#[trigger] c@[j]),
        decreases c.len() - i,
    {
        if !('0' <= c[i] && c[i] <= '9') {
            return false;
        }
        i = i + 1;
    }
    true
}

/// `a` behind enough zeros to make it `n` long.
pub open spec fn padded(a: Seq<char>, n: nat) -> Seq<char> {
    Seq::new((n - a.len()) as nat, |i: int| '0') + a
}

proof fn lemma_zeros_value(k: nat)
    ensures
        digits_value(Seq::new(k, |i: int| '0')) == 0,
    decreases k,
{
    if k > 0 {
        assert(Seq::new(k, |i: int| '0').drop_last() =~= Seq::new((k - 1) as nat, |i: int| '0'));
        lemma_zeros_value((k - 1) as nat);
    }
}

proof fn lemma_padded_value(z: Seq<char>, a: Seq<char>)
    requires
        forall|i: int| 0 <= i < z.len() ==> #[trigger] z[i] == '0',
    ensures
        digits_value(z + a) == digits_value(a),
    decreases a.len(),
{
    if a.len() == 0 {
        assert(z + a =~= z);
        assert(z =~= Seq::new(z.len(), |i: int| '0'));
        lemma_zeros_value(z.len());
    } else {
        assert((z + a).drop_last() =~= z + a.drop_last());
        lemma_padded_value(z, a.drop_last());
    }
}

/// Compares two runs of digits by their values, whatever their lengths.
fn compare_digit_runs(a: &Vec<char>, b: &Vec<char>) -> (r: Ordering)
    requires
        is_digit_run(a@),
        is_digit_run(b@),
    ensures
        r == count_order(digits_value(a@) as int, digits_value(b@) as int),
{
    let n: usize = if a.len() >= b.len() {
        a.len()
    } else {
        b.len()
    };
    let pa: usize = n - a.len();
    let pb: usize = n - b.len();
    let ghost za = padded(a@, n as nat);
    let ghost zb = padded(b@, n as nat);
    proof {
        lemma_padded_value(Seq::new(pa as nat, |i: int| '0'), a@);
        lemma_padded_value(Seq::new(pb as nat, |i: int| '0'), b@);
        assert(za.take(0) =~= Seq::<char>::empty());
        assert(zb.take(0) =~= Seq::<char>::empty());
    }
    let mut ord = Ordering::Equal;
    let mut p: usize = 0;
    while p < n
        invariant
            is_digit_run(a@),
            is_digit_run(b@),
            pa == n - a.len(),
            pb == n - b.len(),
            za == padded(a@, n as nat),
            zb == padded(b@, n as nat),
            p <= n,
            ord == count_order(digits_value(za.take(p as int)) as int, digits_value(zb.take(p as int)) as int),
        decreases n - p,
    {
        let ca: char = if p < pa {
            '0'
        } else {
            a[p - pa]
        };
        let cb: char = if p < pb {
            '0'
        } else {
            b[p - pb]
        };
        assert(ca == za[p as int] && cb == zb[p as int]);
        assert(is_digit(ca) && is_digit(cb));
        assert(za.take(p + 1).drop_last() =~= za.take(p as int));
        assert(zb.take(p + 1).drop_last() =~= zb.take(p as int));
        assert(za.take(p + 1).last() == ca && zb.take(p + 1).last() == cb);
        if let Ordering::Equal = ord {
            ord = if (ca as u32) < (cb as u32) {
                Ordering::Less
            } else if (ca as u32) > (cb as u32) {
                Ordering::Greater
            } else {
                Ordering::Equal
            };
        }
        p = p + 1;
    }
    assert(za.take(n as int) =~= za);
    assert(zb.take(n as int) =~= zb);
    ord
}

/// Compares two outline ids in natural order.
pub fn natural_cmp(a: &str, b: &str) -> (r: Ordering)
    ensures
        r == natural_order(a@, b@),
{
    proof {
        reveal(natural_order);
    }
    let segs_a = split_segments(a);
    let segs_b = split_segments(b);
    let ghost xa = views(segs_a@);
    let ghost xb = views(segs_b@);
    assert(xa.skip(0) =~= xa);
    assert(xb.skip(0) =~= xb);
    let mut i: usize = 0;
    while i < segs_a.len() && i < segs_b.len()
        invariant
            natural_order(a@, b@) == segments_order(xa, xb),
            xa == views(segs_a@) && xa == segments(a@),
            xb == views(segs_b@) && xb == segments(b@),
            0 <= i <= segs_a.len(),
            i <= segs_b.len(),
            segments_order(xa, xb) == segments_order(xa.skip(i as int), xb.skip(i as int)),
        decreases segs_a.len() - i,
    {
        let sa = segs_a[i].as_str();
        let sb = segs_b[i].as_str();
        let ghost x = xa.skip(i as int);
        let ghost y = xb.skip(i as int);
        assert(x.len() > 0 && y.len() > 0);
        assert(x[0] == xa[i as int] && y[0] == xb[i as int]);
        assert(x[0] == sa@ && y[0] == sb@);
        assert(x.drop_first() =~= xa.skip(i + 1));
        assert(y.drop_first() =~= xb.skip(i + 1));
        let ca = chars_of(sa);
        let cb = chars_of(sb);
        if digit_run(&ca) && digit_run(&cb) {
            match compare_digit_runs(&ca, &cb) {
                Ordering::Equal => {},
                o => {
                    return o;
                },
            }
        } else {
            assert(segments_order(x, y) == text_order(ca@, cb@));
            return compare_chars(&ca, &cb);
        }
        i = i + 1;
    }
    let ghost x = xa.skip(i as int);
    let ghost y = xb.skip(i as int);
    assert(x.len() == 0 || y.len() == 0);
    if segs_a.len() < segs_b.len() {
        Ordering::Less
    } else if segs_a.len() > segs_b.len() {
        Ordering::Greater
    } else {
        Ordering::Equal
    }
}


pub proof fn lemma_text_order_flip(a: Seq<char>, b: Seq<char>)
    ensures
        text_order(b, a) == flip(text_order(a, b)),
    decreases a.len(),
{
    if a.len() > 0 && b.len() > 0 && a[0] == b[0] {
        lemma_text_order_flip(a.drop_first(), b.drop_first());
    }
}

pub proof fn lemma_text_order_refl(a: Seq<char>)
    ensures
        text_order(a, a) == Ordering::Equal,
    decreases a.len(),
{
    if a.len() > 0 {
        lemma_text_order_refl(a.drop_first());
    }
}

pub proof fn lemma_segments_order_flip(x: Seq<Seq<char>>, y: Seq<Seq<char>>)
    ensures
        segments_order(y, x) == flip(segments_order(x, y)),
    decreases x.len(),
{
    if x.len() > 0 && y.len() > 0 {
        match (segment_value(x[0]), segment_value(y[0])) {
            (Some(n), Some(m)) => {
                if n == m {
                    lemma_segments_order_flip(x.drop_first(), y.drop_first());
                }
            },
            _ => {
                lemma_text_order_flip(x[0], y[0]);
            },
        }
    }
}

pub proof fn lemma_segments_order_refl(x: Seq<Seq<char>>)
    ensures
        segments_order(x, x) == Ordering::Equal,
    decreases x.len(),
{
    if x.len() > 0 {
        lemma_segments_order_refl(x.drop_first());
        lemma_text_order_refl(x[0]);
    }
}

/// Natural order is antisymmetric: swapping the two ids flips the result.
pub proof fn lemma_natural_order_flip(a: Seq<char>, b: Seq<char>)
    ensures
        natural_order(b, a) == flip(natural_order(a, b)),
{
    reveal(natural_order);
    lemma_segments_order_flip(segments(a), segments(b));
}

pub proof fn lemma_segments_numeric_at(x: Seq<Seq<char>>, y: Seq<Seq<char>>, k: int)
    requires
        x.len() == y.len(),
        0 <= k < x.len(),
        forall|i: int| 0 <= i < x.len() && i != k ==> x[i] == y[i],
        forall|i: int| 0 <= i <= k ==> segment_value(#[trigger] x[i]) is Some,
        forall|i: int| 0 <= i <= k ==> segment_value(#[trigger] y[i]) is Some,
    ensures
        segments_order(x, y) == count_order(
            segment_value(x[k])->0 as int,
            segment_value(y[k])->0 as int,
        ),
    decreases k,
{
    assert(segment_value(x[0]) is Some && segment_value(y[0]) is Some);
    if k == 0 {
        if segment_value(x[0]) == segment_value(y[0]) {
            assert(x.drop_first() =~= y.drop_first());
            lemma_segments_order_refl(x.drop_first());
        }
    } else {
        assert(x[0] == y[0]);
        lemma_segments_numeric_at(x.drop_first(), y.drop_first(), k - 1);
    }
}

/// Two ids with as many segments, equal everywhere but at position `k`, where
/// both segments hold integers (as do all segments before `k`), are ordered
/// by the values of those two integers.
pub proof fn lemma_numeric_segment_decides(a: Seq<char>, b: Seq<char>, k: int)
    requires
        segments(a).len() == segments(b).len(),
        0 <= k < segments(a).len(),
        forall|i: int|
            0 <= i < segments(a).len() && i != k ==> segments(a)[i] == segments(b)[i],
        forall|i: int| 0 <= i <= k ==> segment_value(#[trigger] segments(a)[i]) is Some,
        forall|i: int| 0 <= i <= k ==> segment_value(#[trigger] segments(b)[i]) is Some,
    ensures
        natural_order(a, b) == count_order(
            segment_value(segments(a)[k])->0 as int,
            segment_value(segments(b)[k])->0 as int,
        ),
{
    reveal(natural_order);
    lemma_segments_numeric_at(segments(a), segments(b), k);
}

pub open spec fn has_no_separator(s: Seq<char>) -> bool {
    forall|i: int| 0 <= i < s.len() ==> s[i] != '-'
}

pub proof fn lemma_segments_append_plain(t: Seq<char>, s: Seq<char>)
    requires
        has_no_separator(s),
    ensures
        segments(t + s) == segments(t).update(
            segments(t).len() - 1,
            segments(t).last() + s,
        ),
    decreases s.len(),
{
    lemma_segments_nonempty(t);
    if s.len() == 0 {
        assert(t + s =~= t);
        assert(segments(t).last() + s =~= segments(t).last());
        assert(segments(t).update(segments(t).len() - 1, segments(t).last()) =~= segments(t));
    } else {
        let s0 = s.drop_last();
        assert((t + s).drop_last() =~= t + s0);
        lemma_segments_append_plain(t, s0);
        assert((t + s).last() == s.last());
        assert(segments(t).last() + s0 + seq![s.last()] =~= segments(t).last() + s);
        assert((segments(t).last() + s0).push(s.last()) =~= segments(t).last() + s);
        assert(segments(t + s) =~= segments(t).update(
            segments(t).len() - 1,
            segments(t).last() + s,
        ));
    }
}

/// The segments of a direct child id: the parent's segments and one more.
pub proof fn lemma_segments_of_child(a: Seq<char>, s: Seq<char>)
    requires
        has_no_separator(s),
    ensures
        segments(a + seq!['-'] + s) == segments(a).push(s),
{
    let t = a + seq!['-'];
    assert(t.drop_last() =~= a);
    lemma_segments_nonempty(a);
    lemma_segments_append_plain(t, s);
    assert(Seq::<char>::empty() + s =~= s);
    assert(segments(t).update(segments(t).len() - 1, segments(t).last() + s) =~= segments(a).push(s));
}

pub proof fn lemma_segments_prefix_first(x: Seq<Seq<char>>, s: Seq<char>)
    requires
        forall|i: int| 0 <= i < x.len() ==> segment_value(#[trigger] x[i]) is Some,
    ensures
        segments_order(x, x.push(s)) == Ordering::Less,
    decreases x.len(),
{
    if x.len() > 0 {
        assert(x.push(s)[0] == x[0]);
        assert(x.push(s).drop_first() =~= x.drop_first().push(s));
        lemma_segments_prefix_first(x.drop_first(), s);
    }
}

/// An id whose segments all hold integers comes before each of its direct
/// children (`2` before `2-1`, `2-1` before `2-1-1`).
pub proof fn lemma_parent_before_child(a: Seq<char>, s: Seq<char>)
    requires
        has_no_separator(s),
        forall|i: int| 0 <= i < segments(a).len() ==> segment_value(#[trigger] segments(a)[i]) is Some,
    ensures
        natural_order(a, a + seq!['-'] + s) == Ordering::Less,
{
    reveal(natural_order);
    lemma_segments_of_child(a, s);
    lemma_segments_prefix_first(segments(a), s);
}

} // verus!
