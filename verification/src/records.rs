//! Keyed series: records in key order, read back by linear interpolation.

use vstd::prelude::*;
use crate::fixed::{
    in_key, lemma_scale_within, mul_div, scale, spec_min, COORD_MAX, EPSILON, KEY_MAX,
};
use crate::vector::{lerp_scalar, Vector3};

verus! {

/// A series longer than this may shed its older half.
pub const PREFIX_LEN: usize = 128;

/// A value that can stand in a series and be interpolated.
pub trait LerpValue: Copy {
    /// The value is one that a series may hold.
    spec fn in_range(self) -> bool;

    /// The value a fraction `num / den` of the way from `self` to `other`.
    spec fn lerp_spec(self, other: Self, num: int, den: int) -> Self;

    /// Interpolation starts at `self` and ends at `other`.
    proof fn lemma_lerp_ends(self, other: Self, den: int)
        requires
            self.in_range(),
            other.in_range(),
            0 < den,
        ensures
            self.lerp_spec(other, 0, den) == self,
            self.lerp_spec(other, den, den) == other,
    ;

    fn lerp(self, other: Self, num: i64, den: i64) -> (r: Self)
        requires
            self.in_range(),
            other.in_range(),
            0 <= num <= den,
            0 < den,
        ensures
            r == self.lerp_spec(other, num as int, den as int),
            r.in_range(),
    ;

    /// Whether the value is one that a series may hold.
    fn is_in_range(self) -> (ok: bool)
        ensures
            ok == self.in_range(),
    ;
}

impl LerpValue for i64 {
    open spec fn in_range(self) -> bool {
        in_key(self as int)
    }

    open spec fn lerp_spec(self, other: Self, num: int, den: int) -> Self {
        (self + scale(other - self, num, den)) as i64
    }

    proof fn lemma_lerp_ends(self, other: Self, den: int) {
        lemma_scale_within(other - self, 0, den);
        lemma_scale_within(other - self, den, den);
    }

    fn lerp(self, other: Self, num: i64, den: i64) -> (r: Self) {
        lerp_scalar(self, other, num, den)
    }

    fn is_in_range(self) -> (ok: bool) {
        -KEY_MAX <= self && self <= KEY_MAX
    }
}

impl LerpValue for Vector3 {
    open spec fn in_range(self) -> bool {
        self.bounded()
    }

    open spec fn lerp_spec(self, other: Self, num: int, den: int) -> Self {
        self.mix(other, num, den)
    }

    proof fn lemma_lerp_ends(self, other: Self, den: int) {
        lemma_scale_within(other.x - self.x, 0, den);
        lemma_scale_within(other.x - self.x, den, den);
        lemma_scale_within(other.y - self.y, 0, den);
        lemma_scale_within(other.y - self.y, den, den);
        lemma_scale_within(other.z - self.z, 0, den);
        lemma_scale_within(other.z - self.z, den, den);
    }

    fn lerp(self, other: Self, num: i64, den: i64) -> (r: Self) {
        proof {
            lemma_scale_within(other.x - self.x, num as int, den as int);
            lemma_scale_within(other.y - self.y, num as int, den as int);
            lemma_scale_within(other.z - self.z, num as int, den as int);
        }
        Vector3 {
            x: self.x + mul_div(other.x - self.x, num, den),
            y: self.y + mul_div(other.y - self.y, num, den),
            z: self.z + mul_div(other.z - self.z, num, den),
        }
    }

    fn is_in_range(self) -> (ok: bool) {
        -COORD_MAX <= self.x && self.x <= COORD_MAX && -COORD_MAX <= self.y && self.y <= COORD_MAX
            && -COORD_MAX <= self.z && self.z <= COORD_MAX
    }
}

/// One sample of a series: a value and the key it was taken at.
#[derive(Debug, PartialEq, Eq)]
pub struct MoveRecord<T> {
    pub key: i64,
    pub value: T,
}

impl<T: Copy> Clone for MoveRecord<T> {
    fn clone(&self) -> (r: Self)
        ensures
            r == *self,
    {
        MoveRecord { key: self.key, value: self.value }
    }
}

impl<T: Copy> Copy for MoveRecord<T> {

}

/// The keys never decrease from one record to the next.
pub open spec fn sorted<T>(s: Seq<MoveRecord<T>>) -> bool {
    forall|i: int, j: int| 0 <= i <= j < s.len() ==> s[i].key <= s[j].key
}

/// The records are in key order, and every key and value is in range.
pub open spec fn valid<T: LerpValue>(s: Seq<MoveRecord<T>>) -> bool {
    &&& sorted(s)
    &&& forall|i: int| 0 <= i < s.len() ==> in_key(#[trigger] s[i].key as int)
    &&& forall|i: int| 0 <= i < s.len() ==> (#[trigger] s[i]).value.in_range()
}

/// In a sorted series, the number of records whose key lies below `key`:
/// the index of the first record at or after it.
pub open spec fn rank<T>(s: Seq<MoveRecord<T>>, key: int) -> int
    decreases s.len(),
{
    if s.len() == 0 {
        0
    } else if s.last().key < key {
        s.len() as int
    } else {
        rank(s.drop_last(), key)
    }
}

/// The value of the series at `key`, and how far the nearest record lies
/// beyond `key` where `key` is outside the series.
///
/// Between two records the value is interpolated, and the second part is
/// zero; two records closer than [`EPSILON`] yield the later one. Before the
/// first record the result is the first value and a positive shortfall;
/// after the last it is the last value and a negative one. An empty series
/// has no value.
pub open spec fn linear<T: LerpValue>(s: Seq<MoveRecord<T>>, key: int) -> Option<(T, int)> {
    let p = rank(s, key);
    if 0 < p < s.len() {
        let a = s[p - 1];
        let b = s[p];
        if b.key - a.key < EPSILON {
            Some((b.value, 0int))
        } else {
            Some((a.value.lerp_spec(b.value, key - a.key, b.key - a.key), 0int))
        }
    } else if s.len() > 0 {
        let a = s[spec_min(p, s.len() - 1)];
        Some((a.value, a.key - key))
    } else {
        None
    }
}

/// The series after retention: once it is longer than [`PREFIX_LEN`] and its
/// middle record is more than `threshold` older than its last, the older
/// half is gone.
pub open spec fn trimmed<T>(s: Seq<MoveRecord<T>>, threshold: int) -> Seq<MoveRecord<T>> {
    if s.len() > PREFIX_LEN && s[s.len() as int / 2].key + threshold < s.last().key {
        s.skip(s.len() as int / 2)
    } else {
        s
    }
}

/// `p` splits a series into the records below `key` and those at or above it.
pub open spec fn splits<T>(s: Seq<MoveRecord<T>>, key: int, p: int) -> bool {
    &&& 0 <= p <= s.len()
    &&& forall|i: int| 0 <= i < p ==> (#[trigger] s[i]).key < key
    &&& forall|i: int| p <= i < s.len() ==> (#[trigger] s[i]).key >= key
}

/// The rank of a key splits a sorted series at the key.
pub proof fn lemma_rank_splits<T>(s: Seq<MoveRecord<T>>, key: int)
    requires
        sorted(s),
    ensures
        splits(s, key, rank(s, key)),
    decreases s.len(),
{
    if s.len() == 0 {
    } else if s.last().key < key {
        assert forall|i: int| 0 <= i < s.len() implies (#[trigger] s[i]).key < key by {
            assert(s[i].key <= s[s.len() - 1].key);
        }
    } else {
        let t = s.drop_last();
        assert forall|i: int, j: int| 0 <= i <= j < t.len() implies t[i].key <= t[j].key by {
            assert(s[i].key <= s[j].key);
        }
        lemma_rank_splits(t, key);
        let p = rank(t, key);
        assert forall|i: int| 0 <= i < p implies (#[trigger] s[i]).key < key by {
            assert(t[i].key < key);
        }
        assert forall|i: int| p <= i < s.len() implies (#[trigger] s[i]).key >= key by {
            if i < t.len() {
                assert(t[i].key >= key);
            }
        }
    }
}

/// The place that splits a sorted series at a key is the rank of the key.
pub proof fn lemma_splits_is_rank<T>(s: Seq<MoveRecord<T>>, key: int, p: int)
    requires
        sorted(s),
        splits(s, key, p),
    ensures
        rank(s, key) == p,
{
    lemma_rank_splits(s, key);
    let q = rank(s, key);
    if p < q {
        assert(s[p].key < key);
    } else if q < p {
        assert(s[q].key < key);
    }
}

/// A series of records in key order.
pub struct MoveRecords<T>(Vec<MoveRecord<T>>);

impl<T> View for MoveRecords<T> {
    type V = Seq<MoveRecord<T>>;

    closed spec fn view(&self) -> Seq<MoveRecord<T>> {
        self.0@
    }
}

impl<T: LerpValue> MoveRecords<T> {
    /// The series is in key order and holds only keys and values in range.
    pub open spec fn wf(&self) -> bool {
        valid(self@)
    }

    /// The empty series.
    pub fn new() -> (r: Self)
        ensures
            r@ == Seq::<MoveRecord<T>>::empty(),
            r.wf(),
    {
        MoveRecords(Vec::new())
    }

    /// The number of records.
    pub fn len(&self) -> (n: usize)
        ensures
            n == self@.len(),
    {
        self.0.len()
    }

    /// Whether the series holds no record.
    pub fn is_empty(&self) -> (b: bool)
        ensures
            b == (self@.len() == 0),
    {
        self.0.len() == 0
    }

    /// The record at `index`.
    pub fn get(&self, index: usize) -> (r: MoveRecord<T>)
        requires
            index < self@.len(),
        ensures
            r == self@[index as int],
    {
        self.0[index]
    }

    /// The record with the greatest key, if there is one.
    pub fn last(&self) -> (r: Option<MoveRecord<T>>)
        ensures
            self@.len() == 0 ==> r.is_none(),
            self@.len() > 0 ==> r == Some(self@.last()),
    {
        let n = self.0.len();
        if n == 0 {
            None
        } else {
            Some(self.0[n - 1])
        }
    }

    /// Appends a record whose key is not below the last one.
    pub fn push(&mut self, value: MoveRecord<T>)
        requires
            old(self).wf(),
            in_key(value.key as int),
            value.value.in_range(),
            old(self)@.len() > 0 ==> old(self)@.last().key <= value.key,
        ensures
            final(self)@ == old(self)@.push(value),
            final(self).wf(),
    {
        self.0.push(value);
        proof {
            let s = old(self)@;
            let t = self@;
            assert forall|i: int, j: int| 0 <= i <= j < t.len() implies t[i].key <= t[j].key by {
                if j < s.len() {
                    assert(s[i].key <= s[j].key);
                } else if i < s.len() {
                    assert(s[i].key <= s[s.len() - 1].key);
                }
            }
        }
    }

    /// Removes and returns the record with the greatest key.
    pub fn pop(&mut self) -> (r: Option<MoveRecord<T>>)
        requires
            old(self).wf(),
        ensures
            old(self)@.len() == 0 ==> r.is_none() && final(self)@ == old(self)@,
            old(self)@.len() > 0 ==> r == Some(old(self)@.last()) && final(self)@ == old(
                self,
            )@.drop_last(),
            final(self).wf(),
    {
        let r = self.0.pop();
        proof {
            lemma_prefix_valid(old(self)@, self@.len() as int);
            assert(self@ =~= old(self)@.take(self@.len() as int));
        }
        r
    }

    /// Keeps the first `len` records and drops the rest.
    pub fn truncate(&mut self, len: usize)
        requires
            old(self).wf(),
        ensures
            len <= old(self)@.len() ==> final(self)@ == old(self)@.take(len as int),
            len > old(self)@.len() ==> final(self)@ == old(self)@,
            final(self).wf(),
    {
        self.0.truncate(len);
        proof {
            if len <= old(self)@.len() {
                lemma_prefix_valid(old(self)@, len as int);
                assert(self@ =~= old(self)@.take(len as int));
            } else {
                assert(self@ =~= old(self)@);
            }
        }
    }

    /// The series that holds `records`, if they are in key order and every
    /// key and value is in range.
    pub fn from_records(records: &Vec<MoveRecord<T>>) -> (r: Option<Self>)
        ensures
            r.is_some() == valid(records@),
            r.is_some() ==> r.unwrap()@ == records@,
    {
        let mut out: MoveRecords<T> = MoveRecords::new();
        let mut i: usize = 0;
        while i < records.len()
            invariant
                i <= records@.len(),
                out.wf(),
                out@ == records@.take(i as int),
            decreases records@.len() - i,
        {
            let rec = records[i];
            if rec.key < -KEY_MAX || rec.key > KEY_MAX || !rec.value.is_in_range() {
                assert(!(in_key(records@[i as int].key as int) && records@[i as int].value.in_range()));
                return None;
            }
            if i > 0 && records[i - 1].key > rec.key {
                assert(!(records@[i - 1].key <= records@[i as int].key));
                return None;
            }
            assert(i > 0 ==> out@.last() == records@[i - 1]);
            out.push(rec);
            assert(out@ =~= records@.take(i + 1));
            i = i + 1;
        }
        assert(records@.take(i as int) =~= records@);
        Some(out)
    }

    /// The records of the series, in order.
    pub fn to_vec(&self) -> (records: Vec<MoveRecord<T>>)
        ensures
            records@ == self@,
    {
        let mut records: Vec<MoveRecord<T>> = Vec::new();
        let mut i: usize = 0;
        while i < self.0.len()
            invariant
                i <= self@.len(),
                records@ == self@.take(i as int),
            decreases self@.len() - i,
        {
            records.push(self.0[i]);
            assert(records@ =~= self@.take(i + 1));
            i = i + 1;
        }
        assert(self@.take(i as int) =~= self@);
        records
    }

    /// The index of the first record whose key is not below `key`.
    pub fn partition_point(&self, key: i64) -> (p: usize)
        requires
            self.wf(),
        ensures
            p == rank(self@, key as int),
            splits(self@, key as int, p as int),
    {
        let mut lo: usize = 0;
        let mut hi: usize = self.0.len();
        while lo < hi
            invariant
                lo <= hi <= self@.len(),
                self.wf(),
                forall|i: int| 0 <= i < lo ==> (#[trigger] self@[i]).key < key,
                forall|i: int| hi <= i < self@.len() ==> (#[trigger] self@[i]).key >= key,
            decreases hi - lo,
        {
            let mid: usize = lo + (hi - lo) / 2;
            if self.0[mid].key < key {
                assert forall|i: int| 0 <= i < mid + 1 implies (#[trigger] self@[i]).key < key by {
                    assert(self@[i].key <= self@[mid as int].key);
                }
                lo = mid + 1;
            } else {
                assert forall|i: int| mid <= i < self@.len() implies (#[trigger] self@[i]).key
                    >= key by {
                    assert(self@[mid as int].key <= self@[i].key);
                }
                hi = mid;
            }
        }
        proof {
            lemma_splits_is_rank(self@, key as int, lo as int);
        }
        lo
    }

    /// Sheds the older half of a long series whose middle record is more
    /// than `threshold` older than its last.
    pub fn trim(&mut self, threshold: i64)
        requires
            old(self).wf(),
            in_key(threshold as int),
        ensures
            final(self)@ == trimmed(old(self)@, threshold as int),
            final(self).wf(),
    {
        let n = self.0.len();
        if n > PREFIX_LEN {
            let half: usize = n / 2;
            if self.0[half].key + threshold < self.0[n - 1].key {
                let tail = self.0.split_off(half);
                self.0 = tail;
                proof {
                    lemma_suffix_valid(old(self)@, half as int);
                    assert(self@ =~= old(self)@.skip(half as int));
                }
            }
        }
    }

    /// Reads the series at `key`: see [`linear`].
    pub fn get_linear(&self, key: i64) -> (r: Option<(T, i64)>)
        requires
            self.wf(),
            in_key(key as int),
        ensures
            r.is_some() == (self@.len() > 0),
            match (r, linear(self@, key as int)) {
                (Some(got), Some(want)) => got.0 == want.0 && got.1 == want.1,
                (None, None) => true,
                _ => false,
            },
            r.is_some() ==> r.unwrap().0.in_range(),
    {
        let p = self.partition_point(key);
        let n = self.0.len();
        if p > 0 && p < n {
            let a = self.0[p - 1];
            let b = self.0[p];
            if b.key - a.key < EPSILON {
                Some((b.value, 0))
            } else {
                Some((a.value.lerp(b.value, key - a.key, b.key - a.key), 0))
            }
        } else if n > 0 {
            let a = if p < n {
                self.0[p]
            } else {
                self.0[n - 1]
            };
            Some((a.value, a.key - key))
        } else {
            None
        }
    }
}

/// The first records of a valid series are a valid series.
pub proof fn lemma_prefix_valid<T: LerpValue>(s: Seq<MoveRecord<T>>, n: int)
    requires
        valid(s),
        0 <= n <= s.len(),
    ensures
        valid(s.take(n)),
{
    let t = s.take(n);
    assert forall|i: int, j: int| 0 <= i <= j < t.len() implies t[i].key <= t[j].key by {
        assert(s[i].key <= s[j].key);
    }
    assert forall|i: int| 0 <= i < t.len() implies in_key(#[trigger] t[i].key as int) by {
        assert(in_key(s[i].key as int));
    }
    assert forall|i: int| 0 <= i < t.len() implies (#[trigger] t[i]).value.in_range() by {
        assert(s[i].value.in_range());
    }
}

/// The last records of a valid series are a valid series.
pub proof fn lemma_suffix_valid<T: LerpValue>(s: Seq<MoveRecord<T>>, n: int)
    requires
        valid(s),
        0 <= n <= s.len(),
    ensures
        valid(s.skip(n)),
{
    let t = s.skip(n);
    assert forall|i: int, j: int| 0 <= i <= j < t.len() implies t[i].key <= t[j].key by {
        assert(s[i + n].key <= s[j + n].key);
    }
    assert forall|i: int| 0 <= i < t.len() implies in_key(#[trigger] t[i].key as int) by {
        assert(in_key(s[i + n].key as int));
    }
    assert forall|i: int| 0 <= i < t.len() implies (#[trigger] t[i]).value.in_range() by {
        assert(s[i + n].value.in_range());
    }
}

} // verus!
