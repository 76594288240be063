//! The names of segment files: the decimal digits of the id, without
//! leading zeros, followed by `.log`. Each id has one name, and each name
//! stands for one id.

use vstd::prelude::*;

verus! {

/// The byte `0`.
pub const DIGIT_ZERO: u8 = 0x30;

/// The byte `9`.
pub const DIGIT_NINE: u8 = 0x39;

/// The bytes of `.log`.
pub open spec fn log_suffix() -> Seq<u8> {
    seq![0x2Eu8, 0x6Cu8, 0x6Fu8, 0x67u8]
}

/// Every byte is a decimal digit.
pub open spec fn is_digits(ds: Seq<u8>) -> bool {
    forall|i: int| 0 <= i < ds.len() ==> DIGIT_ZERO <= #[trigger] ds[i] <= DIGIT_NINE
}

/// The number that decimal digits stand for.
pub open spec fn digits_value(ds: Seq<u8>) -> nat
    decreases ds.len(),
{
    if ds.len() == 0 {
        0
    } else {
        digits_value(ds.drop_last()) * 10 + (ds.last() - DIGIT_ZERO) as nat
    }
}

/// The decimal digits of a number, without leading zeros.
pub open spec fn decimal(n: nat) -> Seq<u8>
    decreases n,
{
    if n < 10 {
        seq![(DIGIT_ZERO + n) as u8]
    } else {
        decimal(n / 10).push((DIGIT_ZERO + n % 10) as u8)
    }
}

/// The name of the file of segment `id`.
pub open spec fn name_of(id: u64) -> Seq<u8> {
    decimal(id as nat) + log_suffix()
}

/// The digits have no leading zero: a single digit, or a first digit
/// other than `0`.
pub open spec fn no_leading_zero(ds: Seq<u8>) -> bool {
    ds.len() == 1 || (ds.len() > 1 && ds[0] != DIGIT_ZERO)
}

/// The id that a file name stands for: the name is one or more decimal
/// digits without a leading zero, whose number fits an id, followed by
/// `.log`. `None` for any other name.
pub open spec fn id_of(name: Seq<u8>) -> Option<u64> {
    let digits = name.take(name.len() - 4);
    if name.len() > 4 && name.skip(name.len() - 4) == log_suffix() && is_digits(digits)
        && no_leading_zero(digits) && digits_value(digits) <= u64::MAX {
        Some(digits_value(digits) as u64)
    } else {
        None
    }
}

/// The decimal digits of a number are digits without a leading zero and
/// stand for the number.
pub proof fn lemma_decimal(n: nat)
    ensures
        is_digits(decimal(n)),
        decimal(n).len() >= 1,
        n >= 1 ==> decimal(n)[0] != DIGIT_ZERO,
        n < 10 ==> decimal(n).len() == 1,
        no_leading_zero(decimal(n)),
        digits_value(decimal(n)) == n,
    decreases n,
{
    if n < 10 {
        let d = decimal(n);
        assert(d.drop_last() =~= Seq::<u8>::empty());
        assert(digits_value(d.drop_last()) == 0);
    } else {
        lemma_decimal(n / 10);
        let d = decimal(n);
        assert(d.drop_last() =~= decimal(n / 10));
    }
}

/// The name of a segment stands for its id.
pub proof fn lemma_name_round_trip(id: u64)
    ensures
        id_of(name_of(id)) == Some(id),
{
    let name = name_of(id);
    let d = decimal(id as nat);
    lemma_decimal(id as nat);
    assert(name.take(name.len() - 4) =~= d);
    assert(name.skip(name.len() - 4) =~= log_suffix());
}

/// Digits without a leading zero are the decimal digits of their number.
pub proof fn lemma_digits_are_decimal(ds: Seq<u8>)
    requires
        is_digits(ds),
        no_leading_zero(ds),
    ensures
        ds == decimal(digits_value(ds)),
        ds.len() > 1 ==> digits_value(ds) >= 10,
        ds[0] != DIGIT_ZERO ==> digits_value(ds) >= 1,
    decreases ds.len(),
{
    let init = ds.drop_last();
    let d = (ds.last() - DIGIT_ZERO) as nat;
    if ds.len() == 1 {
        assert(init =~= Seq::<u8>::empty());
        assert(digits_value(init) == 0);
        assert(ds =~= decimal(d));
    } else {
        assert(init[0] == ds[0]);
        assert(is_digits(init)) by {
            assert forall|i: int| 0 <= i < init.len() implies DIGIT_ZERO <= #[trigger] init[i]
                <= DIGIT_NINE by {
                assert(init[i] == ds[i]);
            }
        }
        lemma_digits_are_decimal(init);
        let n = digits_value(ds);
        assert(n == digits_value(init) * 10 + d);
        assert(n / 10 == digits_value(init));
        assert(n % 10 == d);
        assert(ds =~= decimal(n / 10).push((DIGIT_ZERO + n % 10) as u8));
    }
}

/// A name stands for an id exactly where it is the name of that id.
pub proof fn lemma_name_of_id(name: Seq<u8>, id: u64)
    ensures
        id_of(name) == Some(id) <==> name == name_of(id),
{
    if id_of(name) == Some(id) {
        let digits = name.take(name.len() - 4);
        lemma_digits_are_decimal(digits);
        assert(name =~= digits + name.skip(name.len() - 4));
    }
    if name == name_of(id) {
        lemma_name_round_trip(id);
    }
}

/// More digits do not make the number smaller.
pub proof fn lemma_digits_value_grows(ds: Seq<u8>, n: int)
    requires
        is_digits(ds),
        0 <= n <= ds.len(),
    ensures
        digits_value(ds.take(n)) <= digits_value(ds),
    decreases ds.len() - n,
{
    if n < ds.len() {
        lemma_digits_value_grows(ds, n + 1);
        assert(ds.take(n + 1).drop_last() =~= ds.take(n));
    } else {
        assert(ds.take(n) =~= ds);
    }
}

/// The decimal digits of `n`.
pub fn render_decimal(n: u64) -> (digits: Vec<u8>)
    ensures
        digits@ == decimal(n as nat),
    decreases n,
{
    if n < 10 {
        let mut digits: Vec<u8> = Vec::new();
        digits.push(DIGIT_ZERO + (n as u8));
        proof {
            assert(digits@ =~= decimal(n as nat));
        }
        digits
    } else {
        let mut digits = render_decimal(n / 10);
        digits.push(DIGIT_ZERO + ((n % 10) as u8));
        digits
    }
}

/// The name of the file of segment `id`: its decimal digits and `.log`. It
/// is the only name that stands for the id.
pub fn segment_name(id: u64) -> (name: Vec<u8>)
    ensures
        name@ == name_of(id),
        id_of(name@) == Some(id),
{
    let mut name = render_decimal(id);
    name.push(0x2E);
    name.push(0x6C);
    name.push(0x6F);
    name.push(0x67);
    proof {
        assert(name@ =~= name_of(id));
        lemma_name_round_trip(id);
    }
    name
}

/// The number that the bytes stand for as decimal digits; `None` where a
/// byte is no digit or the number does not fit.
pub fn parse_decimal(ds: &[u8]) -> (r: Option<u64>)
    ensures
        match r {
            Some(n) => is_digits(ds@) && digits_value(ds@) == n,
            None => !is_digits(ds@) || digits_value(ds@) > u64::MAX,
        },
{
    let mut acc: u64 = 0;
    let mut i: usize = 0;
    proof {
        assert(ds@.take(0) =~= Seq::<u8>::empty());
    }
    while i < ds.len()
        invariant
            i <= ds@.len(),
            is_digits(ds@.take(i as int)),
            digits_value(ds@.take(i as int)) == acc,
        decreases ds@.len() - i,
    {
        let b = ds[i];
        proof {
            assert(ds@.take(i + 1).drop_last() =~= ds@.take(i as int));
            assert(ds@.take(i + 1).last() == b);
        }
        if b < DIGIT_ZERO || b > DIGIT_NINE {
            return None;
        }
        let d = (b - DIGIT_ZERO) as u64;
        if acc > (u64::MAX - d) / 10 {
            proof {
                assert(digits_value(ds@.take(i + 1)) > u64::MAX);
                if is_digits(ds@) {
                    lemma_digits_value_grows(ds@, i + 1);
                }
            }
            return None;
        }
        acc = acc * 10 + d;
        proof {
            assert forall|j: int| 0 <= j < i + 1 implies DIGIT_ZERO <= #[trigger] ds@.take(
                i + 1,
            )[j] <= DIGIT_NINE by {
                if j < i {
                    assert(ds@.take(i as int)[j] == ds@[j]);
                }
            }
        }
        i += 1;
    }
    proof {
        assert(ds@.take(i as int) =~= ds@);
    }
    Some(acc)
}

/// The id that a file name stands for, if it names a segment.
pub fn segment_id(name: &[u8]) -> (r: Option<u64>)
    ensures
        r == id_of(name@),
        r matches Some(id) ==> name@ == name_of(id),
{
    let n = name.len();
    if n <= 4 {
        return None;
    }
    if name[n - 4] != 0x2E || name[n - 3] != 0x6C || name[n - 2] != 0x6F || name[n - 1] != 0x67 {
        proof {
            let tail = name@.skip(n - 4);
            assert(tail[0] == name@[n - 4] && tail[1] == name@[n - 3] && tail[2] == name@[n - 2]
                && tail[3] == name@[n - 1]);
        }
        return None;
    }
    proof {
        assert(name@.skip(n - 4) =~= log_suffix());
        assert(name@.take(n - 4) =~= name@.subrange(0, n - 4));
        assert(name@.take(n - 4)[0] == name@[0]);
    }
    if n - 4 > 1 && name[0] == DIGIT_ZERO {
        return None;
    }
    let r = parse_decimal(vstd::slice::slice_subrange(name, 0, n - 4));
    proof {
        if let Some(id) = r {
            lemma_name_of_id(name@, id);
        }
    }
    r
}

/// The numbers grow strictly from each to the next.
pub open spec fn ascending(ids: Seq<u64>) -> bool {
    forall|i: int, j: int| 0 <= i < j < ids.len() ==> ids[i] < ids[j]
}

/// Some name of `names` stands for the segment `id`.
pub open spec fn names_hold(names: Seq<Vec<u8>>, id: u64) -> bool {
    exists|i: int| 0 <= i < names.len() && id_of(#[trigger] names[i]@) == Some(id)
}

/// Puts `id` into an ascending list at its place, unless it is there.
pub fn insert_id(ids: &mut Vec<u64>, id: u64)
    requires
        ascending(old(ids)@),
    ensures
        ascending(final(ids)@),
        forall|x: u64| final(ids)@.contains(x) <==> (x == id || old(ids)@.contains(x)),
{
    let ghost before = ids@;
    let mut i: usize = 0;
    while i < ids.len() && ids[i] < id
        invariant
            ids@ == before,
            i <= before.len(),
            forall|j: int| 0 <= j < i ==> before[j] < id,
        decreases before.len() - i,
    {
        i += 1;
    }
    if i < ids.len() && ids[i] == id {
        proof {
            assert(before.contains(id));
        }
        return ;
    }
    ids.insert(i, id);
    proof {
        let after = ids@;
        assert(after =~= before.insert(i as int, id));
        assert forall|a: int, b: int| 0 <= a < b < after.len() implies after[a] < after[b] by {
            if b == i {
                assert(after[a] == before[a]);
            } else if a == i {
                assert(after[b] == before[b - 1]);
                if b - 1 > i {
                    assert(before[i as int] < before[b - 1]);
                }
            } else if a < i && b > i {
                assert(after[a] == before[a] && after[b] == before[b - 1]);
            } else if a > i {
                assert(after[a] == before[a - 1] && after[b] == before[b - 1]);
            }
        }
        assert forall|x: u64| after.contains(x) <==> (x == id || before.contains(x)) by {
            if after.contains(x) {
                let k = choose|k: int| 0 <= k < after.len() && after[k] == x;
                if k < i {
                    assert(before[k] == x);
                } else if k > i {
                    assert(before[k - 1] == x);
                }
            }
            if x == id {
                assert(after[i as int] == x);
            }
            if before.contains(x) {
                let k = choose|k: int| 0 <= k < before.len() && before[k] == x;
                if k < i {
                    assert(after[k] == x);
                } else {
                    assert(after[k + 1] == x);
                }
            }
        }
    }
}

/// The name of segment `id` is among the names.
pub open spec fn has_name_of(names: Seq<Vec<u8>>, id: u64) -> bool {
    exists|i: int| 0 <= i < names.len() && (#[trigger] names[i])@ == name_of(id)
}

/// The ids of the segments among the given file names, ascending, each
/// once. Names that stand for no segment are passed over, so the name of
/// every id that is listed is among the names.
pub fn get_logs(names: &Vec<Vec<u8>>) -> (ids: Vec<u64>)
    ensures
        ascending(ids@),
        forall|id: u64| ids@.contains(id) <==> names_hold(names@, id),
        forall|id: u64| ids@.contains(id) <==> has_name_of(names@, id),
{
    let mut ids: Vec<u64> = Vec::new();
    let mut i: usize = 0;
    while i < names.len()
        invariant
            i <= names@.len(),
            ascending(ids@),
            forall|id: u64| ids@.contains(id) <==> names_hold(names@.take(i as int), id),
        decreases names@.len() - i,
    {
        let ghost before = ids@;
        let ghost seen = names@.take(i as int);
        let ghost next = names@.take(i + 1);
        let found = segment_id(names[i].as_slice());
        match found {
            Some(id) => {
                insert_id(&mut ids, id);
            },
            None => {},
        }
        proof {
            assert forall|id: u64| ids@.contains(id) <==> names_hold(next, id) by {
                if names_hold(seen, id) {
                    let k = choose|k: int| 0 <= k < seen.len() && id_of(#[trigger] seen[k]@)
                        == Some(id);
                    assert(next[k] == seen[k]);
                }
                if found == Some(id) {
                    assert(next[i as int] == names@[i as int]);
                }
                if names_hold(next, id) {
                    let k = choose|k: int| 0 <= k < next.len() && id_of(#[trigger] next[k]@)
                        == Some(id);
                    if k < i {
                        assert(seen[k] == next[k]);
                    }
                }
            }
        }
        i += 1;
    }
    proof {
        assert(names@.take(i as int) =~= names@);
        assert forall|id: u64| names_hold(names@, id) <==> has_name_of(names@, id) by {
            if names_hold(names@, id) {
                let k = choose|k: int|
                    0 <= k < names@.len() && id_of(#[trigger] names@[k]@) == Some(id);
                lemma_name_of_id(names@[k]@, id);
            }
            if has_name_of(names@, id) {
                let k = choose|k: int|
                    0 <= k < names@.len() && (#[trigger] names@[k])@ == name_of(id);
                lemma_name_of_id(names@[k]@, id);
            }
        }
    }
    ids
}

} // verus!
