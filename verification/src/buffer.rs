//! Columnar batch buffer: fixed-capacity, per-column-typed scratch arrays
//! holding up to one batch of rows, reused across row groups.
//!
//! Every column keeps a packed value array (present values only, in row
//! order) beside a validity array with one marker per row: the count of
//! markers set to one always equals the number of populated slots.

use crate::decimal::{
    decimal_text_wf, decimal_value, fits_signed, in_i128, strip_point, twos_complement_be,
    twos_complement_big_int, twos_complement_i128,
};
use crate::temporal::{
    nanos_of_day, spec_days_since_epoch, spec_timestamp_nanos, trunc_div, Date, TimeOfDay,
    Timestamp,
};
use vstd::prelude::*;

verus! {

/// How many of the entries are present.
pub open spec fn count_present<T>(s: Seq<Option<T>>) -> nat
    decreases s.len(),
{
    if s.len() == 0 {
        0
    } else {
        count_present(s.drop_last()) + (if s.last() is Some {
            1nat
        } else {
            0nat
        })
    }
}

/// The present values, nulls omitted, in row order.
pub open spec fn packed_values<T>(s: Seq<Option<T>>) -> Seq<T>
    decreases s.len(),
{
    if s.len() == 0 {
        Seq::empty()
    } else {
        packed_values(s.drop_last()) + (match s.last() {
            Some(v) => seq![v],
            None => Seq::empty(),
        })
    }
}

/// The packed value array is exactly as long as the count of present
/// markers, and never longer than the row count; with at least one null it
/// is strictly shorter than the row count.
pub proof fn lemma_packed_matches_validity<T>(s: Seq<Option<T>>)
    ensures
        packed_values(s).len() == count_present(s),
        count_present(s) <= s.len(),
        (exists|i: int| 0 <= i < s.len() && s[i] is None) ==> count_present(s) < s.len(),
    decreases s.len(),
{
    if s.len() > 0 {
        lemma_packed_matches_validity(s.drop_last());
        if exists|i: int| 0 <= i < s.len() && s[i] is None {
            let i = choose|i: int| 0 <= i < s.len() && s[i] is None;
            if i < s.len() - 1 {
                assert(s.drop_last()[i] is None);
            }
        }
    }
}

/// A value that can be turned into the physical representation `T` of the
/// columnar format.
pub trait IntoPhysical<T>: Sized {
    /// When the conversion is defined.
    spec fn ip_wf(self) -> bool;

    /// What the converted value is.
    spec fn ip_ens(self, r: T) -> bool;

    /// Converts into the physical representation.
    fn into_physical(self) -> (r: T)
        requires
            self.ip_wf(),
        ensures
            self.ip_ens(r),
    ;
}

/// A single bit as the relational source hands it over.
#[derive(Clone, Copy, Debug, PartialEq, Eq, Structural)]
pub struct Bit(pub u8);

impl IntoPhysical<i32> for i32 {
    open spec fn ip_wf(self) -> bool {
        true
    }

    open spec fn ip_ens(self, r: i32) -> bool {
        r == self
    }

    fn into_physical(self) -> (r: i32) {
        self
    }
}

impl IntoPhysical<i64> for i64 {
    open spec fn ip_wf(self) -> bool {
        true
    }

    open spec fn ip_ens(self, r: i64) -> bool {
        r == self
    }

    fn into_physical(self) -> (r: i64) {
        self
    }
}

impl IntoPhysical<bool> for Bit {
    open spec fn ip_wf(self) -> bool {
        true
    }

    open spec fn ip_ens(self, r: bool) -> bool {
        r == (self.0 == 1)
    }

    fn into_physical(self) -> (r: bool) {
        self.0 == 1
    }
}

/// Milliseconds since midnight, for 32-bit time slots.
impl IntoPhysical<i32> for TimeOfDay {
    open spec fn ip_wf(self) -> bool {
        self.wf()
    }

    open spec fn ip_ens(self, r: i32) -> bool {
        r == nanos_of_day(self) / 1_000_000
    }

    fn into_physical(self) -> (r: i32) {
        crate::temporal::time_to_millis_since_midnight(&self)
    }
}

/// Microseconds since midnight, for 64-bit time slots.
impl IntoPhysical<i64> for TimeOfDay {
    open spec fn ip_wf(self) -> bool {
        self.wf()
    }

    open spec fn ip_ens(self, r: i64) -> bool {
        r == nanos_of_day(self) / 1000
    }

    fn into_physical(self) -> (r: i64) {
        crate::temporal::time_to_micros_since_midnight(&self)
    }
}

/// Days since the epoch, for 32-bit date slots.
impl IntoPhysical<i32> for Date {
    open spec fn ip_wf(self) -> bool {
        self.wf()
    }

    open spec fn ip_ens(self, r: i32) -> bool {
        r == spec_days_since_epoch(self.year as int, self.month as int, self.day as int)
    }

    fn into_physical(self) -> (r: i32) {
        crate::temporal::date_to_days_since_epoch(&self)
    }
}

/// Microseconds since the epoch, truncated from nanoseconds, for 64-bit
/// timestamp slots.
impl IntoPhysical<i64> for Timestamp {
    open spec fn ip_wf(self) -> bool {
        self.wf()
    }

    open spec fn ip_ens(self, r: i64) -> bool {
        r == trunc_div(spec_timestamp_nanos(self), 1000)
    }

    fn into_physical(self) -> (r: i64) {
        crate::temporal::timestamp_to_micros_since_epoch(&self)
    }
}

/// The reusable per-column scratch arrays of one in-flight batch.
pub struct ParquetBuffer {
    /// 32-bit slots: dates, times at millisecond resolution, 32-bit ints.
    pub values_i32: Vec<i32>,
    /// 64-bit slots: timestamps, times at microsecond resolution, 64-bit ints.
    pub values_i64: Vec<i64>,
    /// 32-bit float slots, held as raw bit patterns so the buffer stays
    /// bit-reproducible.
    pub values_f32_bits: Vec<u32>,
    /// 64-bit float slots, held as raw bit patterns.
    pub values_f64_bits: Vec<u64>,
    /// Variable-length byte slots: text, binary and encoded decimals.
    pub values_bytes_array: Vec<Vec<u8>>,
    /// Bit slots.
    pub values_bool: Vec<bool>,
    /// One validity marker per row: zero for null, one for present.
    pub def_levels: Vec<i16>,
}

/// A physical value type that owns one of the buffer's value arrays.
pub trait BufferedDataType: Sized + Copy {
    /// This type's value array inside the buffer.
    spec fn slot(b: ParquetBuffer) -> Seq<Self>;

    /// Nothing but this type's value array and the validity markers moved.
    spec fn untouched(b1: ParquetBuffer, b2: ParquetBuffer) -> bool;

    /// `untouched` is reflexive.
    proof fn untouched_refl(b: ParquetBuffer)
        ensures
            Self::untouched(b, b),
    ;

    /// `untouched` chains.
    proof fn untouched_trans(a: ParquetBuffer, b: ParquetBuffer, c: ParquetBuffer)
        requires
            Self::untouched(a, b),
            Self::untouched(b, c),
        ensures
            Self::untouched(a, c),
    ;

    /// Writes a present value into slot `idx` and marks `row` present.
    fn store_present(b: &mut ParquetBuffer, idx: usize, row: usize, value: Self)
        requires
            idx < Self::slot(*old(b)).len(),
            row < old(b).def_levels.len(),
        ensures
            Self::slot(*final(b)) == Self::slot(*old(b)).update(idx as int, value),
            final(b).def_levels@ == old(b).def_levels@.update(row as int, 1i16),
            Self::untouched(*old(b), *final(b)),
    ;

    /// Marks `row` null; no slot is populated.
    fn mark_absent(b: &mut ParquetBuffer, row: usize)
        requires
            row < old(b).def_levels.len(),
        ensures
            Self::slot(*final(b)) == Self::slot(*old(b)),
            final(b).def_levels@ == old(b).def_levels@.update(row as int, 0i16),
            Self::untouched(*old(b), *final(b)),
    ;
}

impl BufferedDataType for i32 {
    open spec fn slot(b: ParquetBuffer) -> Seq<i32> {
        b.values_i32@
    }

    open spec fn untouched(b1: ParquetBuffer, b2: ParquetBuffer) -> bool {
        b2.values_i64@ == b1.values_i64@ && b2.values_f32_bits@ == b1.values_f32_bits@
            && b2.values_f64_bits@ == b1.values_f64_bits@ && b2.values_bytes_array@
            == b1.values_bytes_array@ && b2.values_bool@ == b1.values_bool@
    }

    proof fn untouched_refl(b: ParquetBuffer) {
    }

    proof fn untouched_trans(a: ParquetBuffer, b: ParquetBuffer, c: ParquetBuffer) {
    }

    fn store_present(b: &mut ParquetBuffer, idx: usize, row: usize, value: i32) {
        b.values_i32[idx] = value;
        b.def_levels[row] = 1;
    }

    fn mark_absent(b: &mut ParquetBuffer, row: usize) {
        b.def_levels[row] = 0;
    }
}

impl BufferedDataType for i64 {
    open spec fn slot(b: ParquetBuffer) -> Seq<i64> {
        b.values_i64@
    }

    open spec fn untouched(b1: ParquetBuffer, b2: ParquetBuffer) -> bool {
        b2.values_i32@ == b1.values_i32@ && b2.values_f32_bits@ == b1.values_f32_bits@
            && b2.values_f64_bits@ == b1.values_f64_bits@ && b2.values_bytes_array@
            == b1.values_bytes_array@ && b2.values_bool@ == b1.values_bool@
    }

    proof fn untouched_refl(b: ParquetBuffer) {
    }

    proof fn untouched_trans(a: ParquetBuffer, b: ParquetBuffer, c: ParquetBuffer) {
    }

    fn store_present(b: &mut ParquetBuffer, idx: usize, row: usize, value: i64) {
        b.values_i64[idx] = value;
        b.def_levels[row] = 1;
    }

    fn mark_absent(b: &mut ParquetBuffer, row: usize) {
        b.def_levels[row] = 0;
    }
}

impl BufferedDataType for u32 {
    open spec fn slot(b: ParquetBuffer) -> Seq<u32> {
        b.values_f32_bits@
    }

    open spec fn untouched(b1: ParquetBuffer, b2: ParquetBuffer) -> bool {
        b2.values_i32@ == b1.values_i32@ && b2.values_i64@ == b1.values_i64@ && b2.values_f64_bits@
            == b1.values_f64_bits@ && b2.values_bytes_array@ == b1.values_bytes_array@
            && b2.values_bool@ == b1.values_bool@
    }

    proof fn untouched_refl(b: ParquetBuffer) {
    }

    proof fn untouched_trans(a: ParquetBuffer, b: ParquetBuffer, c: ParquetBuffer) {
    }

    fn store_present(b: &mut ParquetBuffer, idx: usize, row: usize, value: u32) {
        b.values_f32_bits[idx] = value;
        b.def_levels[row] = 1;
    }

    fn mark_absent(b: &mut ParquetBuffer, row: usize) {
        b.def_levels[row] = 0;
    }
}

impl BufferedDataType for u64 {
    open spec fn slot(b: ParquetBuffer) -> Seq<u64> {
        b.values_f64_bits@
    }

    open spec fn untouched(b1: ParquetBuffer, b2: ParquetBuffer) -> bool {
        b2.values_i32@ == b1.values_i32@ && b2.values_i64@ == b1.values_i64@ && b2.values_f32_bits@
            == b1.values_f32_bits@ && b2.values_bytes_array@ == b1.values_bytes_array@
            && b2.values_bool@ == b1.values_bool@
    }

    proof fn untouched_refl(b: ParquetBuffer) {
    }

    proof fn untouched_trans(a: ParquetBuffer, b: ParquetBuffer, c: ParquetBuffer) {
    }

    fn store_present(b: &mut ParquetBuffer, idx: usize, row: usize, value: u64) {
        b.values_f64_bits[idx] = value;
        b.def_levels[row] = 1;
    }

    fn mark_absent(b: &mut ParquetBuffer, row: usize) {
        b.def_levels[row] = 0;
    }
}

impl BufferedDataType for bool {
    open spec fn slot(b: ParquetBuffer) -> Seq<bool> {
        b.values_bool@
    }

    open spec fn untouched(b1: ParquetBuffer, b2: ParquetBuffer) -> bool {
        b2.values_i32@ == b1.values_i32@ && b2.values_i64@ == b1.values_i64@ && b2.values_f32_bits@
            == b1.values_f32_bits@ && b2.values_f64_bits@ == b1.values_f64_bits@
            && b2.values_bytes_array@ == b1.values_bytes_array@
    }

    proof fn untouched_refl(b: ParquetBuffer) {
    }

    proof fn untouched_trans(a: ParquetBuffer, b: ParquetBuffer, c: ParquetBuffer) {
    }

    fn store_present(b: &mut ParquetBuffer, idx: usize, row: usize, value: bool) {
        b.values_bool[idx] = value;
        b.def_levels[row] = 1;
    }

    fn mark_absent(b: &mut ParquetBuffer, row: usize) {
        b.def_levels[row] = 0;
    }
}

/// Sets a vector to `n` copies of `x`.
fn refill<T: Copy>(v: &mut Vec<T>, n: usize, x: T)
    ensures
        final(v)@.len() == n,
        forall|i: int| 0 <= i < n ==> final(v)@[i] == x,
{
    v.clear();
    let mut i: usize = 0;
    while i < n
        invariant
            i <= n,
            v@.len() == i,
            forall|j: int| 0 <= j < i ==> v@[j] == x,
        decreases n - i,
    {
        v.push(x);
        i = i + 1;
    }
}

/// Sets a vector to `n` empty byte strings.
fn refill_bytes(v: &mut Vec<Vec<u8>>, n: usize)
    ensures
        final(v)@.len() == n,
        forall|i: int| 0 <= i < n ==> final(v)@[i]@ == Seq::<u8>::empty(),
{
    v.clear();
    let mut i: usize = 0;
    while i < n
        invariant
            i <= n,
            v@.len() == i,
            forall|j: int| 0 <= j < i ==> v@[j]@ == Seq::<u8>::empty(),
        decreases n - i,
    {
        v.push(Vec::new());
        i = i + 1;
    }
}

impl ParquetBuffer {
    /// All arrays hold exactly `rows` slots.
    pub open spec fn sized_for(self, rows: nat) -> bool {
        &&& self.values_i32@.len() == rows
        &&& self.values_i64@.len() == rows
        &&& self.values_f32_bits@.len() == rows
        &&& self.values_f64_bits@.len() == rows
        &&& self.values_bytes_array@.len() == rows
        &&& self.values_bool@.len() == rows
        &&& self.def_levels@.len() == rows
    }

    /// A fresh, empty batch buffer. The capacity hint says how many rows a
    /// batch will carry; the arrays are sized per row group.
    pub fn new(batch_size: usize) -> (b: ParquetBuffer)
        ensures
            b.sized_for(0),
    {
        ParquetBuffer {
            values_i32: Vec::with_capacity(batch_size),
            values_i64: Vec::with_capacity(batch_size),
            values_f32_bits: Vec::with_capacity(batch_size),
            values_f64_bits: Vec::with_capacity(batch_size),
            values_bytes_array: Vec::with_capacity(batch_size),
            values_bool: Vec::with_capacity(batch_size),
            def_levels: Vec::with_capacity(batch_size),
        }
    }

    /// Resizes every per-column array to the row count of the next chunk
    /// and resets all validity markers to absent.
    pub fn set_num_rows_fetched(&mut self, num_rows: usize)
        ensures
            final(self).sized_for(num_rows as nat),
            forall|i: int| 0 <= i < num_rows ==> final(self).def_levels@[i] == 0i16,
    {
        refill(&mut self.def_levels, num_rows, 0);
        refill(&mut self.values_i32, num_rows, 0);
        refill(&mut self.values_i64, num_rows, 0);
        refill(&mut self.values_f32_bits, num_rows, 0);
        refill(&mut self.values_f64_bits, num_rows, 0);
        refill_bytes(&mut self.values_bytes_array, num_rows);
        refill(&mut self.values_bool, num_rows, false);
    }

    /// Streams one column of optional source items into the batch: marks
    /// each row's validity and packs the converted present values, in row
    /// order, into the front of this type's value array.
    pub fn write_optional<T: BufferedDataType, S: IntoPhysical<T> + Copy>(
        &mut self,
        source: &Vec<Option<S>>,
    ) -> (count: usize)
        requires
            T::slot(*old(self)).len() == source@.len(),
            old(self).def_levels@.len() == source@.len(),
            forall|i: int|
                0 <= i < source@.len() ==> ((#[trigger] source@[i]) matches Some(s) ==> s.ip_wf()),
        ensures
            count == count_present(source@),
            T::slot(*final(self)).len() == source@.len(),
            final(self).def_levels@.len() == source@.len(),
            forall|i: int|
                0 <= i < source@.len() ==> final(self).def_levels@[i] == (if source@[i] is Some {
                    1i16
                } else {
                    0i16
                }),
            forall|k: int|
                0 <= k < count ==> packed_values(source@)[k].ip_ens(
                    #[trigger] T::slot(*final(self))[k],
                ),
            T::untouched(*old(self), *final(self)),
    {
        let ghost src = source@;
        let mut values_index: usize = 0;
        let mut i: usize = 0;
        proof {
            T::untouched_refl(*old(self));
            assert(src.take(0) =~= Seq::<Option<S>>::empty());
        }
        while i < source.len()
            invariant
                i <= src.len(),
                src == source@,
                forall|j: int| 0 <= j < src.len() ==> ((#[trigger] src[j]) matches Some(s)
                    ==> s.ip_wf()),
                values_index == count_present(src.take(i as int)),
                T::slot(*self).len() == src.len(),
                self.def_levels@.len() == src.len(),
                forall|j: int|
                    0 <= j < i ==> self.def_levels@[j] == (if src[j] is Some {
                        1i16
                    } else {
                        0i16
                    }),
                forall|k: int|
                    0 <= k < values_index ==> packed_values(src.take(i as int))[k].ip_ens(
                        #[trigger] T::slot(*self)[k],
                    ),
                T::untouched(*old(self), *self),
            decreases src.len() - i,
        {
            let ghost pre = src.take(i as int);
            let ghost pre1 = src.take(i + 1);
            proof {
                assert(pre1.drop_last() =~= pre);
                assert(pre1.last() == src[i as int]);
                lemma_packed_matches_validity(pre);
                lemma_packed_matches_validity(pre1);
            }
            let item: Option<S> = source[i];
            let ghost before = *self;
            match item {
                Some(s) => {
                    let v: T = s.into_physical();
                    T::store_present(self, values_index, i, v);
                    proof {
                        assert(packed_values(pre1) =~= packed_values(pre).push(s));
                        assert(forall|k: int|
                            0 <= k < values_index ==> #[trigger] T::slot(*self)[k] == T::slot(
                                before,
                            )[k]);
                        assert(T::slot(*self)[values_index as int] == v);
                    }
                    values_index = values_index + 1;
                },
                None => {
                    T::mark_absent(self, i);
                    proof {
                        assert(packed_values(pre1) =~= packed_values(pre));
                    }
                },
            }
            proof {
                T::untouched_trans(*old(self), before, *self);
            }
            i = i + 1;
        }
        proof {
            assert(src.take(src.len() as int) =~= src);
        }
        values_index
    }

    /// Streams one column of optional byte strings (text or binary) into
    /// the batch: validity markers per row, present values packed in front.
    pub fn write_bytes_optional(&mut self, source: &Vec<Option<Vec<u8>>>) -> (count: usize)
        requires
            old(self).values_bytes_array@.len() == source@.len(),
            old(self).def_levels@.len() == source@.len(),
        ensures
            count == count_present(source@),
            final(self).values_bytes_array@.len() == source@.len(),
            final(self).def_levels@.len() == source@.len(),
            forall|i: int|
                0 <= i < source@.len() ==> final(self).def_levels@[i] == (if source@[i] is Some {
                    1i16
                } else {
                    0i16
                }),
            forall|k: int|
                0 <= k < count ==> (#[trigger] final(self).values_bytes_array@[k])@
                    == packed_values(source@)[k]@,
            final(self).values_i32@ == old(self).values_i32@,
            final(self).values_i64@ == old(self).values_i64@,
            final(self).values_f32_bits@ == old(self).values_f32_bits@,
            final(self).values_f64_bits@ == old(self).values_f64_bits@,
            final(self).values_bool@ == old(self).values_bool@,
    {
        let ghost src = source@;
        let mut values_index: usize = 0;
        let mut i: usize = 0;
        proof {
            assert(src.take(0) =~= Seq::<Option<Vec<u8>>>::empty());
        }
        while i < source.len()
            invariant
                i <= src.len(),
                src == source@,
                values_index == count_present(src.take(i as int)),
                self.values_bytes_array@.len() == src.len(),
                self.def_levels@.len() == src.len(),
                forall|j: int|
                    0 <= j < i ==> self.def_levels@[j] == (if src[j] is Some {
                        1i16
                    } else {
                        0i16
                    }),
                forall|k: int|
                    0 <= k < values_index ==> (#[trigger] self.values_bytes_array@[k])@
                        == packed_values(src.take(i as int))[k]@,
                self.values_i32@ == old(self).values_i32@,
                self.values_i64@ == old(self).values_i64@,
                self.values_f32_bits@ == old(self).values_f32_bits@,
                self.values_f64_bits@ == old(self).values_f64_bits@,
                self.values_bool@ == old(self).values_bool@,
            decreases src.len() - i,
        {
            let ghost pre = src.take(i as int);
            let ghost pre1 = src.take(i + 1);
            proof {
                assert(pre1.drop_last() =~= pre);
                assert(pre1.last() == src[i as int]);
                lemma_packed_matches_validity(pre);
                lemma_packed_matches_validity(pre1);
            }
            match &source[i] {
                Some(text) => {
                    let copied = clone_bytes(text);
                    self.values_bytes_array[values_index] = copied;
                    self.def_levels[i] = 1;
                    proof {
                        assert(packed_values(pre1) =~= packed_values(pre).push(
                            src[i as int].unwrap(),
                        ));
                    }
                    values_index = values_index + 1;
                },
                None => {
                    self.def_levels[i] = 0;
                    proof {
                        assert(packed_values(pre1) =~= packed_values(pre));
                    }
                },
            }
            i = i + 1;
        }
        proof {
            assert(src.take(src.len() as int) =~= src);
        }
        values_index
    }

    /// Streams one column of optional textual decimals into the batch as
    /// fixed-length two's-complement byte strings: values with precision
    /// below 39 go through 128-bit arithmetic, wider ones through
    /// arbitrary-precision arithmetic; both paths write identical bytes. A
    /// value that cannot be encoded aborts the batch and reports its row
    /// offset; nothing of the batch is handed on.
    pub fn write_decimal(
        &mut self,
        source: &Vec<Option<Vec<u8>>>,
        length: usize,
        precision: usize,
    ) -> (r: Result<usize, (usize, crate::EncodeError)>)
        requires
            old(self).values_bytes_array@.len() == source@.len(),
            old(self).def_levels@.len() == source@.len(),
        ensures
            (match r {
                Ok(count) => {
                    &&& count == count_present(source@)
                    &&& forall|i: int|
                        0 <= i < source@.len() ==> ((#[trigger] source@[i]) matches Some(t)
                            ==> spec_decimal_encodes(t@, length as nat, precision as nat))
                    &&& final(self).values_bytes_array@.len() == source@.len()
                    &&& final(self).def_levels@.len() == source@.len()
                    &&& forall|i: int|
                        0 <= i < source@.len() ==> final(self).def_levels@[i] == (
                        if source@[i] is Some {
                            1i16
                        } else {
                            0i16
                        })
                    &&& forall|k: int|
                        0 <= k < count ==> (#[trigger] final(self).values_bytes_array@[k])@
                            == twos_complement_be(
                            decimal_value(packed_values(source@)[k]@),
                            length as nat,
                        )
                },
                Err((row, e)) => {
                    &&& row < source@.len()
                    &&& source@[row as int] is Some
                    &&& !spec_decimal_encodes(
                        source@[row as int].unwrap()@,
                        length as nat,
                        precision as nat,
                    )
                    &&& (e == crate::EncodeError::MalformedDecimal <==> !decimal_text_wf(
                        source@[row as int].unwrap()@,
                    ))
                    &&& forall|i: int|
                        0 <= i < row ==> ((#[trigger] source@[i]) matches Some(t)
                            ==> spec_decimal_encodes(t@, length as nat, precision as nat))
                },
            }),
    {
        let ghost src = source@;
        // The digit scratch: allocated once, cleared and refilled per value.
        let mut digits: Vec<u8> = Vec::new();
        let mut values_index: usize = 0;
        let mut i: usize = 0;
        proof {
            assert(src.take(0) =~= Seq::<Option<Vec<u8>>>::empty());
        }
        while i < source.len()
            invariant
                i <= src.len(),
                src == source@,
                values_index == count_present(src.take(i as int)),
                self.values_bytes_array@.len() == src.len(),
                self.def_levels@.len() == src.len(),
                forall|j: int|
                    0 <= j < i ==> self.def_levels@[j] == (if src[j] is Some {
                        1i16
                    } else {
                        0i16
                    }),
                forall|j: int|
                    0 <= j < i ==> ((#[trigger] src[j]) matches Some(t) ==> spec_decimal_encodes(
                        t@,
                        length as nat,
                        precision as nat,
                    )),
                forall|k: int|
                    0 <= k < values_index ==> (#[trigger] self.values_bytes_array@[k])@
                        == twos_complement_be(
                        decimal_value(packed_values(src.take(i as int))[k]@),
                        length as nat,
                    ),
            decreases src.len() - i,
        {
            let ghost pre = src.take(i as int);
            let ghost pre1 = src.take(i + 1);
            proof {
                assert(pre1.drop_last() =~= pre);
                assert(pre1.last() == src[i as int]);
                lemma_packed_matches_validity(pre);
                lemma_packed_matches_validity(pre1);
            }
            match &source[i] {
                Some(text) => {
                    let encoded = if precision < 39 {
                        twos_complement_i128(text, length, &mut digits)
                    } else {
                        twos_complement_big_int(text, length, &mut digits)
                    };
                    match encoded {
                        Ok(bytes) => {
                            self.values_bytes_array[values_index] = bytes;
                            self.def_levels[i] = 1;
                            proof {
                                assert(packed_values(pre1) =~= packed_values(pre).push(
                                    src[i as int].unwrap(),
                                ));
                            }
                            values_index = values_index + 1;
                        },
                        Err(e) => {
                            return Err((i, e));
                        },
                    }
                },
                None => {
                    self.def_levels[i] = 0;
                    proof {
                        assert(packed_values(pre1) =~= packed_values(pre));
                    }
                },
            }
            i = i + 1;
        }
        proof {
            assert(src.take(src.len() as int) =~= src);
        }
        Ok(values_index)
    }
}

/// When a textual decimal can be encoded into `length` bytes on the path
/// its precision selects.
pub open spec fn spec_decimal_encodes(text: Seq<u8>, length: nat, precision: nat) -> bool {
    &&& decimal_text_wf(text)
    &&& fits_signed(decimal_value(text), length)
    &&& (precision < 39 ==> in_i128(decimal_value(text)))
}

/// How many markers of a validity array are set to one.
pub open spec fn count_ones(s: Seq<i16>) -> nat
    decreases s.len(),
{
    if s.len() == 0 {
        0
    } else {
        count_ones(s.drop_last()) + (if s.last() == 1i16 {
            1nat
        } else {
            0nat
        })
    }
}

/// A validity array is well formed when every marker is zero or one.
pub open spec fn levels_wf(s: Seq<i16>) -> bool {
    forall|i: int| 0 <= i < s.len() ==> (#[trigger] s[i]) == 0i16 || s[i] == 1i16
}

/// A prefix never holds more ones than the whole array.
proof fn lemma_count_ones_prefix_le(s: Seq<i16>, i: int)
    requires
        0 <= i <= s.len(),
    ensures
        count_ones(s.take(i)) <= count_ones(s),
    decreases s.len() - i,
{
    if i < s.len() {
        assert(s.take(i + 1).drop_last() =~= s.take(i));
        lemma_count_ones_prefix_le(s, i + 1);
        assert(s.take(s.len() as int) =~= s);
    } else {
        assert(s.take(s.len() as int) =~= s);
    }
}

/// Rebuilds a column's rows from its validity array and packed value
/// array: the inverse of streaming the rows into the batch. Fails exactly
/// when a marker is neither zero nor one, or the packed array's length
/// does not match the count of present markers.
pub fn unpack_column<T: Copy>(def_levels: &Vec<i16>, packed: &Vec<T>) -> (r: Option<
    Vec<Option<T>>,
>)
    ensures
        r is Some <==> levels_wf(def_levels@) && count_ones(def_levels@) == packed@.len(),
        (match r {
            Some(rows) => {
                &&& rows@.len() == def_levels@.len()
                &&& forall|i: int|
                    0 <= i < rows@.len() ==> ((#[trigger] rows@[i]) is Some <==> def_levels@[i]
                        == 1i16)
                &&& packed_values(rows@) == packed@
            },
            None => true,
        }),
{
    let ghost defs = def_levels@;
    let mut rows: Vec<Option<T>> = Vec::new();
    let mut k: usize = 0;
    let mut i: usize = 0;
    proof {
        assert(defs.take(0) =~= Seq::<i16>::empty());
        assert(packed_values(rows@) =~= packed@.take(0));
    }
    while i < def_levels.len()
        invariant
            i <= defs.len(),
            defs == def_levels@,
            rows@.len() == i,
            k <= packed@.len(),
            k == count_ones(defs.take(i as int)),
            forall|j: int| 0 <= j < i ==> ((#[trigger] defs[j]) == 0i16 || defs[j] == 1i16),
            forall|j: int|
                0 <= j < i ==> ((#[trigger] rows@[j]) is Some <==> defs[j] == 1i16),
            packed_values(rows@) == packed@.take(k as int),
        decreases defs.len() - i,
    {
        let ghost pre = defs.take(i as int);
        let ghost pre1 = defs.take(i + 1);
        let ghost rows0 = rows@;
        proof {
            assert(pre1.drop_last() =~= pre);
            assert(pre1.last() == defs[i as int]);
        }
        let level: i16 = def_levels[i];
        if level == 1 {
            if k == packed.len() {
                proof {
                    lemma_count_ones_prefix_le(defs, i + 1);
                }
                return None;
            }
            let value: T = packed[k];
            rows.push(Some(value));
            k = k + 1;
            proof {
                assert(rows@.drop_last() =~= rows0);
                assert(packed_values(rows@) =~= packed_values(rows0).push(value));
                assert(packed@.take(k as int) =~= packed@.take(k - 1).push(packed@[k - 1]));
            }
        } else if level == 0 {
            rows.push(None);
            proof {
                assert(rows@.drop_last() =~= rows0);
                assert(packed_values(rows@) =~= packed_values(rows0));
            }
        } else {
            return None;
        }
        i = i + 1;
    }
    if k != packed.len() {
        proof {
            assert(defs.take(defs.len() as int) =~= defs);
        }
        return None;
    }
    proof {
        assert(defs.take(defs.len() as int) =~= defs);
        assert(packed@.take(packed@.len() as int) =~= packed@);
    }
    Some(rows)
}

/// `unpack_column` for byte-string slots, copying each packed value.
pub fn unpack_bytes_column(def_levels: &Vec<i16>, packed: &Vec<Vec<u8>>) -> (r: Option<
    Vec<Option<Vec<u8>>>,
>)
    ensures
        r is Some <==> levels_wf(def_levels@) && count_ones(def_levels@) == packed@.len(),
        (match r {
            Some(rows) => {
                &&& rows@.len() == def_levels@.len()
                &&& forall|i: int|
                    0 <= i < rows@.len() ==> ((#[trigger] rows@[i]) is Some <==> def_levels@[i]
                        == 1i16)
                &&& packed_values(rows@).len() == packed@.len()
                &&& forall|j: int|
                    0 <= j < packed@.len() ==> (#[trigger] packed_values(rows@)[j])@
                        == packed@[j]@
            },
            None => true,
        }),
{
    let ghost defs = def_levels@;
    let mut rows: Vec<Option<Vec<u8>>> = Vec::new();
    let mut k: usize = 0;
    let mut i: usize = 0;
    proof {
        assert(defs.take(0) =~= Seq::<i16>::empty());
    }
    while i < def_levels.len()
        invariant
            i <= defs.len(),
            defs == def_levels@,
            rows@.len() == i,
            k <= packed@.len(),
            k == count_ones(defs.take(i as int)),
            forall|j: int| 0 <= j < i ==> ((#[trigger] defs[j]) == 0i16 || defs[j] == 1i16),
            forall|j: int|
                0 <= j < i ==> ((#[trigger] rows@[j]) is Some <==> defs[j] == 1i16),
            packed_values(rows@).len() == k,
            forall|j: int|
                0 <= j < k ==> (#[trigger] packed_values(rows@)[j])@ == packed@[j]@,
        decreases defs.len() - i,
    {
        let ghost pre = defs.take(i as int);
        let ghost pre1 = defs.take(i + 1);
        let ghost rows0 = rows@;
        proof {
            assert(pre1.drop_last() =~= pre);
            assert(pre1.last() == defs[i as int]);
        }
        let level: i16 = def_levels[i];
        if level == 1 {
            if k == packed.len() {
                proof {
                    lemma_count_ones_prefix_le(defs, i + 1);
                }
                return None;
            }
            let value = clone_bytes(&packed[k]);
            rows.push(Some(value));
            k = k + 1;
            proof {
                assert(rows@.drop_last() =~= rows0);
                assert(packed_values(rows@) =~= packed_values(rows0).push(rows@.last().unwrap()));
            }
        } else if level == 0 {
            rows.push(None);
            proof {
                assert(rows@.drop_last() =~= rows0);
                assert(packed_values(rows@) =~= packed_values(rows0));
            }
        } else {
            return None;
        }
        i = i + 1;
    }
    if k != packed.len() {
        proof {
            assert(defs.take(defs.len() as int) =~= defs);
        }
        return None;
    }
    proof {
        assert(defs.take(defs.len() as int) =~= defs);
    }
    Some(rows)
}

/// Byte-for-byte copy of a byte string.
fn clone_bytes(b: &Vec<u8>) -> (r: Vec<u8>)
    ensures
        r@ == b@,
{
    let mut out: Vec<u8> = Vec::new();
    let mut i: usize = 0;
    while i < b.len()
        invariant
            i <= b@.len(),
            out@ == b@.take(i as int),
        decreases b@.len() - i,
    {
        out.push(b[i]);
        i = i + 1;
        proof {
            assert(b@.take(i as int) =~= b@.take(i - 1).push(b@[i - 1]));
        }
    }
    proof {
        assert(b@.take(b@.len() as int) =~= b@);
    }
    out
}

} // verus!
