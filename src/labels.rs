//! Numeric node labels and the clockwise neighbor order derived from them.
use vstd::prelude::*;
use vstd::string::StringSliceAdditionalSpecFns;

verus! {

broadcast use vstd::seq_lib::to_multiset_insert;

/// `c` is an ASCII decimal digit.
pub open spec fn is_digit(c: u8) -> bool {
    48 <= c <= 57
}

/// Every byte of `b` is a decimal digit.
pub open spec fn all_digits(b: Seq<u8>) -> bool {
    forall|i: int| 0 <= i < b.len() ==> is_digit(#[trigger] b[i])
}

/// The number that the decimal digits `b` spell.
pub open spec fn decimal_value(b: Seq<u8>) -> int
    decreases b.len(),
{
    if b.len() == 0 {
        0
    } else {
        decimal_value(b.drop_last()) * 10 + (b.last() as int - 48)
    }
}

/// The label of a node name: the number it spells when it is a non-empty
/// run of decimal digits whose value fits in a `u64`, and 0 otherwise.
pub open spec fn label_of(b: Seq<u8>) -> u64 {
    if b.len() > 0 && all_digits(b) && decimal_value(b) <= u64::MAX {
        decimal_value(b) as u64
    } else {
        0
    }
}

proof fn lemma_value_nonneg_mono(b: Seq<u8>, i: int)
    requires
        all_digits(b),
        0 <= i <= b.len(),
    ensures
        0 <= decimal_value(b.take(i)) <= decimal_value(b),
    decreases b.len() - i,
{
    if i < b.len() {
        lemma_value_nonneg_mono(b, i + 1);
        assert(b.take(i + 1).drop_last() =~= b.take(i));
        lemma_value_nonneg(b.take(i));
    } else {
        assert(b.take(i) =~= b);
        lemma_value_nonneg(b);
    }
}

proof fn lemma_value_nonneg(b: Seq<u8>)
    requires
        all_digits(b),
    ensures
        decimal_value(b) >= 0,
    decreases b.len(),
{
    if b.len() > 0 {
        assert(all_digits(b.drop_last())) by {
            assert forall|i: int| 0 <= i < b.drop_last().len() implies is_digit(
                #[trigger] b.drop_last()[i],
            ) by {
                assert(b.drop_last()[i] == b[i]);
            }
        }
        lemma_value_nonneg(b.drop_last());
    }
}

/// The label of a node name given as characters: that of its UTF-8 bytes.
pub open spec fn name_label(name: Seq<char>) -> u64 {
    label_of(vstd::utf8::encode_utf8(name))
}

/// Parses a node name as its label (see `label_of`).
pub fn parse_label(s: &str) -> (r: u64)
    ensures
        r == label_of(s.spec_bytes()),
{
    let b = s.as_bytes();
    let ghost bs = s.spec_bytes();
    if b.len() == 0 {
        return 0;
    }
    let mut acc: u64 = 0;
    let mut i: usize = 0;
    while i < b.len()
        invariant
            b@ == bs,
            bs == s.spec_bytes(),
            i <= bs.len(),
            acc as int == decimal_value(bs.take(i as int)),
            all_digits(bs.take(i as int)),
        decreases b.len() - i,
    {
        let c = b[i];
        if c < 48 || c > 57 {
            assert(!all_digits(bs)) by {
                assert(!is_digit(bs[i as int]));
            }
            return 0;
        }
        let d = (c - 48) as u64;
        assert(bs.take(i + 1).drop_last() =~= bs.take(i as int));
        if acc > (u64::MAX - d) / 10 {
            proof {
                assert(decimal_value(bs.take(i + 1)) > u64::MAX);
                if all_digits(bs) {
                    lemma_value_nonneg_mono(bs, i + 1);
                }
            }
            return 0;
        }
        acc = acc * 10 + d;
        assert(all_digits(bs.take(i + 1))) by {
            assert forall|k: int| 0 <= k < i + 1 implies is_digit(#[trigger] bs.take(i + 1)[k]) by {
                if k < i {
                    assert(bs.take(i + 1)[k] == bs.take(i as int)[k]);
                }
            }
        }
        i = i + 1;
    }
    assert(bs.take(bs.len() as int) =~= bs);
    acc
}

/// 2^64, the span of one group of the clockwise key.
pub open spec fn key_span() -> int {
    0x1_0000_0000_0000_0000
}

/// Sort key of a neighbor labelled `x` around a center labelled `c`: nodes
/// above (smaller labels) ascending, then the next node of the same row
/// (`c + 1`), then nodes below (larger labels) descending, then the previous
/// node of the same row (`c - 1`).
pub open spec fn clockwise_key(c: u64, x: u64) -> int {
    if c > 0 && x == c - 1 {
        3 * key_span()
    } else if x as int == c + 1 {
        key_span()
    } else if x < c {
        x as int
    } else {
        2 * key_span() + (u64::MAX - x)
    }
}

/// The clockwise sort key (see `clockwise_key`).
pub fn clockwise_key_of(c: u64, x: u64) -> (r: u128)
    ensures
        r == clockwise_key(c, x),
{
    let span: u128 = 0x1_0000_0000_0000_0000u128;
    if c > 0 && x == c - 1 {
        3 * span
    } else if c < u64::MAX && x == c + 1 {
        span
    } else if x < c {
        x as u128
    } else {
        2 * span + (u64::MAX - x) as u128
    }
}

/// `row` (node ids) stably sorted by the clockwise key of their labels around
/// `center`: the same nodes, as a multiset, in order of the key.
pub fn sort_clockwise(row: &Vec<u32>, labels: &Vec<u64>, center: u32) -> (r: Vec<u32>)
    requires
        (center as int) < labels@.len(),
        forall|i: int| 0 <= i < row@.len() ==> (#[trigger] row@[i] as int) < labels@.len(),
    ensures
        r@.to_multiset() == row@.to_multiset(),
        r@.len() == row@.len(),
        forall|i: int| 0 <= i < r@.len() ==> (#[trigger] r@[i] as int) < labels@.len(),
        forall|i: int, j: int|
            0 <= i < j < r@.len() ==> clockwise_key(labels@[center as int], labels@[r@[i] as int])
                <= clockwise_key(labels@[center as int], labels@[r@[j] as int]),
{
    let c = labels[center as usize];
    let ghost key = |v: u32| clockwise_key(c, labels@[v as int]);
    let mut r: Vec<u32> = Vec::new();
    let mut keys: Vec<u128> = Vec::new();
    let mut i: usize = 0;
    assert(r@ =~= row@.take(0));
    while i < row.len()
        invariant
            c == labels@[center as int],
            i <= row@.len(),
            forall|k: int| 0 <= k < row@.len() ==> (#[trigger] row@[k] as int) < labels@.len(),
            r@.to_multiset() == row@.take(i as int).to_multiset(),
            r@.len() == i,
            keys@.len() == r@.len(),
            forall|k: int| 0 <= k < r@.len() ==> (#[trigger] r@[k] as int) < labels@.len(),
            forall|k: int| 0 <= k < r@.len() ==> keys@[k] as int == clockwise_key(c, labels@[#[trigger] r@[k] as int]),
            forall|a: int, b: int| 0 <= a < b < r@.len() ==> keys@[a] <= keys@[b],
        decreases row.len() - i,
    {
        let v = row[i];
        let k = clockwise_key_of(c, labels[v as usize]);
        let mut pos: usize = 0;
        while pos < r.len() && keys[pos] <= k
            invariant
                pos <= r@.len(),
                keys@.len() == r@.len(),
                forall|a: int| 0 <= a < pos ==> keys@[a] <= k,
            decreases r.len() - pos,
        {
            pos = pos + 1;
        }
        let ghost r0 = r@;
        let ghost k0 = keys@;
        r.insert(pos, v);
        keys.insert(pos, k);
        proof {
            assert(row@.take(i + 1) =~= row@.take(i as int).push(v));
            assert(r0.insert(pos as int, v).to_multiset() == r0.to_multiset().insert(v));
            assert(row@.take(i as int).push(v) =~= row@.take(i as int).insert(i as int, v));
            assert(row@.take(i as int).insert(i as int, v).to_multiset() == row@.take(i as int).to_multiset().insert(v));
            assert forall|a: int, b: int| 0 <= a < b < r@.len() implies keys@[a] <= keys@[b] by {
                if pos < k0.len() {
                    assert(k0[pos as int] > k);
                }
                if a < pos && b == pos {
                } else if a < pos && b > pos {
                    assert(keys@[b] == k0[b - 1]);
                } else if a == pos && b > pos {
                    assert(keys@[b] == k0[b - 1]);
                    assert(k0[pos as int] <= k0[b - 1]);
                } else if a > pos {
                    assert(keys@[a] == k0[a - 1] && keys@[b] == k0[b - 1]);
                }
            }
            assert forall|q: int| 0 <= q < r@.len() implies keys@[q] as int == clockwise_key(
                c,
                labels@[#[trigger] r@[q] as int],
            ) && (r@[q] as int) < labels@.len() by {
                if q < pos {
                    assert(r@[q] == r0[q] && keys@[q] == k0[q]);
                } else if q > pos {
                    assert(r@[q] == r0[q - 1] && keys@[q] == k0[q - 1]);
                }
            }
        }
        i = i + 1;
    }
    assert(row@.take(row@.len() as int) =~= row@);
    r
}

} // verus!
