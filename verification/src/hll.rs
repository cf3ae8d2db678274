//! A sketch of how many distinct values there are.

use arrow_array::cast::AsArray;
use vstd::bytes::{spec_u64_to_le_bytes, spec_u64_to_le_bytes_to_open, u64_to_le_bytes};
use vstd::prelude::*;
use vstd::std_specs::bits::{axiom_u64_leading_zeros, u64_leading_zeros};

verus! {

/// The seed of the hash of a value.
pub const HLL_HASH_SEED: u64 = 0;

/// An error of an operation on columns.
#[derive(Debug)]
pub enum ParquetError {
    /// What went wrong, in words.
    General(String),
}

/// A column of values, held as a value without visible contents.
#[verifier::external_body]
#[derive(Debug)]
pub struct Column {
    /// The values.
    pub array: arrow_array::ArrayRef,
}

/// The values of a column of 64-bit integers, in order, with `None` for each null. Columns of other
/// types have none.
pub uninterp spec fn column_values(column: Column) -> Option<Seq<Option<i64>>>;

/// The hash that [`twox_hash::XxHash64::oneshot`] gives of `bytes`.
pub uninterp spec fn xxhash64(seed: u64, bytes: Seq<u8>) -> u64;

/// Calls [`arrow_array::cast::AsArray::as_primitive_opt`] for 64-bit integers and lists what
/// [`arrow_array::PrimitiveArray::iter`] gives.
///
/// Claimed: the values depend on the column alone.
#[verifier::external_body]
fn int64_values(column: &Column) -> (values: Option<Vec<Option<i64>>>)
    ensures
        match values {
            Some(values) => column_values(*column) == Some(values@),
            None => column_values(*column) is None,
        },
{
    let array = column.array.as_primitive_opt::<arrow_array::types::Int64Type>()?;
    Some(array.iter().collect())
}

/// Calls [`twox_hash::XxHash64::oneshot`].
///
/// Claimed: the hash depends on the seed and the bytes alone.
#[verifier::external_body]
fn call_xxhash64(seed: u64, bytes: &[u8]) -> (hash: u64)
    ensures
        hash == xxhash64(seed, bytes@),
{
    twox_hash::XxHash64::oneshot(seed, bytes)
}

/// The hash of a value.
pub open spec fn value_hash(value: i64) -> u64 {
    xxhash64(HLL_HASH_SEED, spec_u64_to_le_bytes(value as u64))
}

/// The register that a hash belongs to.
pub open spec fn register_of(hash: u64) -> int {
    (hash >> 56) as int
}

/// How many zeros a hash has behind the bits that choose its register.
pub open spec fn rank(hash: u64) -> u8 {
    u64_leading_zeros(hash << 8) as u8
}

/// The registers after a hash was inserted.
pub open spec fn with_hash(registers: Seq<u8>, hash: u64) -> Seq<u8> {
    if rank(hash) > registers[register_of(hash)] {
        registers.update(register_of(hash), rank(hash))
    } else {
        registers
    }
}

/// The registers after values were inserted; nulls leave them alone.
pub open spec fn with_values(registers: Seq<u8>, values: Seq<Option<i64>>) -> Seq<u8>
    decreases values.len(),
{
    if values.len() == 0 {
        registers
    } else {
        let before = with_values(registers, values.drop_last());
        match values.last() {
            Some(value) => with_hash(before, value_hash(value)),
            None => before,
        }
    }
}

/// A HyperLogLog sketch with a register for every first byte of a hash.
#[derive(Debug)]
pub struct HyperLogLog {
    /// The greatest rank seen for each register.
    pub registers: [u8; 256],
}

impl HyperLogLog {
    /// Inserts the value that has the given hash.
    pub fn insert_hash(&mut self, hash: u64)
        ensures
            final(self).registers@ == with_hash(old(self).registers@, hash),
            forall|k: int|
                0 <= k < 256 ==> #[trigger] final(self).registers@[k] == if k == (hash >> 56)
                    && u64_leading_zeros(hash << 8) > old(self).registers@[k] {
                    u64_leading_zeros(hash << 8)
                } else {
                    old(self).registers@[k] as int
                },
    {
        let index = (hash >> 56) as usize;
        let lz = (hash << 8).leading_zeros() as u8;
        assert(hash >> 56 < 256) by (bit_vector);
        proof {
            axiom_u64_leading_zeros(hash << 8);
        }
        if lz > self.registers[index] {
            self.registers[index] = lz;
        }
    }

    /// Inserts the values of a column of 64-bit integers.
    pub fn insert_array(&mut self, array: Column) -> (r: Result<(), ParquetError>)
        requires
            column_values(array) is Some,
        ensures
            r is Ok,
            final(self).registers@ == with_values(
                old(self).registers@,
                column_values(array).unwrap(),
            ),
    {
        if let Some(values) = int64_values(&array) {
            self.insert_values(&values);
        }
        Ok(())
    }

    /// Inserts the values of a column if it is one of 64-bit integers, and tells whether it is.
    pub fn try_insert_array(&mut self, array: Column) -> (inserted: bool)
        ensures
            inserted == (column_values(array) is Some),
            final(self).registers@ == match column_values(array) {
                Some(values) => with_values(old(self).registers@, values),
                None => old(self).registers@,
            },
    {
        match int64_values(&array) {
            Some(_) => {
                let inserted = self.insert_array(array);
                inserted.is_ok()
            },
            None => false,
        }
    }

    /// Inserts values; nulls leave the registers alone.
    pub fn insert_values(&mut self, values: &Vec<Option<i64>>)
        ensures
            final(self).registers@ == with_values(old(self).registers@, values@),
    {
        let mut i: usize = 0;
        while i < values.len()
            invariant
                i <= values.len(),
                self.registers@ == with_values(old(self).registers@, values@.take(i as int)),
            decreases values.len() - i,
        {
            assert(values@.take(i + 1).drop_last() =~= values@.take(i as int));
            if let Some(value) = values[i] {
                let bytes = u64_to_le_bytes(value as u64);
                self.insert_hash(call_xxhash64(HLL_HASH_SEED, bytes.as_slice()));
            }
            i = i + 1;
        }
        assert(values@.take(i as int) =~= values@);
    }
}

proof fn lemma_register_in_range(hash: u64)
    ensures
        0 <= register_of(hash) < 256,
{
    assert(hash >> 56 < 256) by (bit_vector);
}

/// Whether one of `values` has a hash of the given rank in the given register.
pub open spec fn ranks_in(values: Seq<Option<i64>>, register: int, found: u8) -> bool {
    exists|i: int| #[trigger] ranks_at(values, i, register, found)
}

/// Whether the value at `i` has a hash of the given rank in the given register.
pub open spec fn ranks_at(values: Seq<Option<i64>>, i: int, register: int, found: u8) -> bool {
    &&& 0 <= i < values.len()
    &&& values[i] matches Some(value) && register_of(value_hash(value)) == register && rank(
        value_hash(value),
    ) == found
}

/// A register holds the greatest of what it held and of the ranks inserted into it.
pub proof fn lemma_registers_hold_greatest(registers: Seq<u8>, values: Seq<Option<i64>>)
    requires
        registers.len() == 256,
    ensures
        with_values(registers, values).len() == 256,
        forall|register: int|
            0 <= register < 256 ==> registers[register] <= #[trigger] with_values(
                registers,
                values,
            )[register],
        forall|register: int, found: u8| #[trigger]
            ranks_in(values, register, found) ==> found <= with_values(registers, values)[register],
        forall|register: int|
            0 <= register < 256 ==> {
                let held = #[trigger] with_values(registers, values)[register];
                held == registers[register] || ranks_in(values, register, held)
            },
    decreases values.len(),
{
    if values.len() > 0 {
        let front = values.drop_last();
        let before = with_values(registers, front);
        let after = with_values(registers, values);
        let last = values.len() - 1;
        lemma_registers_hold_greatest(registers, front);
        if let Some(value) = values.last() {
            lemma_register_in_range(value_hash(value));
        }
        assert forall|register: int, found: u8| #[trigger]
            ranks_in(values, register, found) implies found <= after[register] by {
            let i = choose|i: int| #[trigger] ranks_at(values, i, register, found);
            if i < last {
                assert(ranks_at(front, i, register, found));
                assert(ranks_in(front, register, found));
                lemma_register_in_range(value_hash(values[i].unwrap()));
            }
        }
        assert forall|register: int| 0 <= register < 256 implies {
            let held = #[trigger] after[register];
            held == registers[register] || ranks_in(values, register, held)
        } by {
            let held = after[register];
            if held == before[register] {
                assert(before[register] == with_values(registers, front)[register]);
                if held != registers[register] {
                    let i = choose|i: int| #[trigger] ranks_at(front, i, register, held);
                    assert(ranks_at(values, i, register, held));
                }
            } else {
                assert(ranks_at(values, last, register, held));
            }
        }
    }
}

/// The eight bytes of a value in two's complement, the lowest first.
pub open spec fn value_bytes(value: i64) -> Seq<u8> {
    let n: int = if value < 0 {
        value + 0x1_0000_0000_0000_0000
    } else {
        value as int
    };
    seq![
        (n % 0x100) as u8,
        (n / 0x100 % 0x100) as u8,
        (n / 0x1_0000 % 0x100) as u8,
        (n / 0x100_0000 % 0x100) as u8,
        (n / 0x1_0000_0000 % 0x100) as u8,
        (n / 0x100_0000_0000 % 0x100) as u8,
        (n / 0x1_0000_0000_0000 % 0x100) as u8,
        (n / 0x100_0000_0000_0000 % 0x100) as u8,
    ]
}

/// The bytes of a value add up to it, each with the weight of its place, so that different values
/// have different bytes.
pub proof fn lemma_bytes_add_up(value: i64)
    ensures
        value_bytes(value).len() == 8,
        ({
            let b = value_bytes(value);
            b[0] + 0x100 * b[1] + 0x1_0000 * b[2] + 0x100_0000 * b[3] + 0x1_0000_0000 * b[4]
                + 0x100_0000_0000 * b[5] + 0x1_0000_0000_0000 * b[6] + 0x100_0000_0000_0000 * b[7]
                == if value < 0 {
                value + 0x1_0000_0000_0000_0000
            } else {
                value as int
            }
        }),
{
    let n: int = if value < 0 {
        value + 0x1_0000_0000_0000_0000
    } else {
        value as int
    };
    lemma_base_256(n);
}

proof fn lemma_base_256(n: int)
    requires
        0 <= n < 0x1_0000_0000_0000_0000,
    ensures
        n % 0x100 + 0x100 * (n / 0x100 % 0x100) + 0x1_0000 * (n / 0x1_0000 % 0x100) + 0x100_0000 * (
        n / 0x100_0000 % 0x100) + 0x1_0000_0000 * (n / 0x1_0000_0000 % 0x100) + 0x100_0000_0000 * (n
            / 0x100_0000_0000 % 0x100) + 0x1_0000_0000_0000 * (n / 0x1_0000_0000_0000 % 0x100)
            + 0x100_0000_0000_0000 * (n / 0x100_0000_0000_0000 % 0x100) == n,
{
    let a = n / 0x100;
    let b = n / 0x1_0000;
    let c = n / 0x100_0000;
    let d = n / 0x1_0000_0000;
    let e = n / 0x100_0000_0000;
    let f = n / 0x1_0000_0000_0000;
    let g = n / 0x100_0000_0000_0000;
    assert(b == a / 0x100);
    assert(c == b / 0x100);
    assert(d == c / 0x100);
    assert(e == d / 0x100);
    assert(f == e / 0x100);
    assert(g == f / 0x100);
    assert(g < 0x100);
    assert(n == n % 0x100 + 0x100 * a);
    assert(a == a % 0x100 + 0x100 * b);
    assert(b == b % 0x100 + 0x100 * c);
    assert(c == c % 0x100 + 0x100 * d);
    assert(d == d % 0x100 + 0x100 * e);
    assert(e == e % 0x100 + 0x100 * f);
    assert(f == f % 0x100 + 0x100 * g);
}

/// Different values are hashed from different bytes.
pub proof fn lemma_bytes_tell_apart(a: i64, b: i64)
    requires
        value_bytes(a) == value_bytes(b),
    ensures
        a == b,
{
    lemma_bytes_add_up(a);
    lemma_bytes_add_up(b);
}

/// A value is hashed from all of its eight bytes, with the seed zero.
pub proof fn lemma_hash_of_all_bytes(value: i64)
    ensures
        value_hash(value) == xxhash64(0, value_bytes(value)),
{
    let u = value as u64;
    assert(value >= 0 ==> u == value) by (bit_vector)
        requires
            u == value as u64,
    ;
    assert(value < 0 ==> u == value + 0x1_0000_0000_0000_0000) by (bit_vector)
        requires
            u == value as u64,
    ;
    spec_u64_to_le_bytes_to_open(u);
    assert(u & 0xff == u % 0x100 && (u >> 8) & 0xff == u / 0x100 % 0x100 && (u >> 16) & 0xff == u
        / 0x1_0000 % 0x100 && (u >> 24) & 0xff == u / 0x100_0000 % 0x100 && (u >> 32) & 0xff == u
        / 0x1_0000_0000 % 0x100 && (u >> 40) & 0xff == u / 0x100_0000_0000 % 0x100 && (u >> 48)
        & 0xff == u / 0x1_0000_0000_0000 % 0x100 && (u >> 56) & 0xff == u / 0x100_0000_0000_0000
        % 0x100) by (bit_vector);
    assert(spec_u64_to_le_bytes(u) =~= value_bytes(value));
}

/// The register that the first byte of a value's hash chooses holds no less than the zeros that
/// follow that byte. Every register holds what it held, or the zeros of one of the values inserted
/// into it. Nulls are no values.
pub proof fn lemma_registers_from_hashes(registers: Seq<u8>, values: Seq<Option<i64>>)
    requires
        registers.len() == 256,
    ensures
        with_values(registers, values).len() == 256,
        forall|k: int|
            0 <= k < 256 ==> registers[k] <= #[trigger] with_values(registers, values)[k],
        forall|i: int|
            0 <= i < values.len() && (#[trigger] values[i]) is Some ==> {
                let hash = xxhash64(0, value_bytes(values[i].unwrap()));
                with_values(registers, values)[(hash >> 56) as int] >= u64_leading_zeros(hash << 8)
            },
        forall|k: int|
            0 <= k < 256 && #[trigger] with_values(registers, values)[k] != registers[k]
                ==> exists|i: int|
                {
                    &&& 0 <= i < values.len()
                    &&& (#[trigger] values[i]) is Some
                    &&& (xxhash64(0, value_bytes(values[i].unwrap())) >> 56) == k
                    &&& u64_leading_zeros(xxhash64(0, value_bytes(values[i].unwrap())) << 8)
                        == with_values(registers, values)[k]
                },
{
    let after = with_values(registers, values);
    lemma_registers_hold_greatest(registers, values);
    assert forall|i: int| 0 <= i < values.len() && (#[trigger] values[i]) is Some implies {
        let hash = xxhash64(0, value_bytes(values[i].unwrap()));
        after[(hash >> 56) as int] >= u64_leading_zeros(hash << 8)
    } by {
        let value = values[i].unwrap();
        let hash = value_hash(value);
        lemma_hash_of_all_bytes(value);
        axiom_u64_leading_zeros(hash << 8);
        assert(ranks_at(values, i, register_of(hash), rank(hash)));
        assert(ranks_in(values, register_of(hash), rank(hash)));
    }
    assert forall|k: int| 0 <= k < 256 && #[trigger] after[k] != registers[k] implies exists|i: int|
        {
            &&& 0 <= i < values.len()
            &&& (#[trigger] values[i]) is Some
            &&& (xxhash64(0, value_bytes(values[i].unwrap())) >> 56) == k
            &&& u64_leading_zeros(xxhash64(0, value_bytes(values[i].unwrap())) << 8) == after[k]
        } by {
        assert(ranks_in(values, k, after[k]));
        let i = choose|i: int| #[trigger] ranks_at(values, i, k, after[k]);
        let value = values[i].unwrap();
        lemma_hash_of_all_bytes(value);
        axiom_u64_leading_zeros(value_hash(value) << 8);
        assert(values[i] is Some);
    }
}

/// What is inserted matters, but not how often or in which order.
pub proof fn lemma_order_and_repetition_are_irrelevant(
    registers: Seq<u8>,
    a: Seq<Option<i64>>,
    b: Seq<Option<i64>>,
)
    requires
        registers.len() == 256,
        forall|value: i64| #[trigger] a.contains(Some(value)) <==> b.contains(Some(value)),
    ensures
        with_values(registers, a) == with_values(registers, b),
{
    let from_a = with_values(registers, a);
    let from_b = with_values(registers, b);
    lemma_registers_hold_greatest(registers, a);
    lemma_registers_hold_greatest(registers, b);
    assert forall|register: int| 0 <= register < 256 implies from_a[register]
        == from_b[register] by {
        let held_a = from_a[register];
        let held_b = from_b[register];
        if held_a != registers[register] {
            let i = choose|i: int| #[trigger] ranks_at(a, i, register, held_a);
            assert(a.contains(Some(a[i].unwrap())));
            let k = choose|k: int| 0 <= k < b.len() && b[k] == a[i];
            assert(ranks_at(b, k, register, held_a));
            assert(ranks_in(b, register, held_a));
        }
        if held_b != registers[register] {
            let i = choose|i: int| #[trigger] ranks_at(b, i, register, held_b);
            assert(b.contains(Some(b[i].unwrap())));
            assert(a.contains(Some(b[i].unwrap())));
            let k = choose|k: int| 0 <= k < a.len() && a[k] == b[i];
            assert(ranks_at(a, k, register, held_b));
            assert(ranks_in(a, register, held_b));
        }
    }
    assert(from_a =~= from_b);
}

/// Values may be inserted in one go or in two.
pub proof fn lemma_insertion_in_parts(
    registers: Seq<u8>,
    a: Seq<Option<i64>>,
    b: Seq<Option<i64>>,
)
    ensures
        with_values(registers, a + b) == with_values(with_values(registers, a), b),
    decreases b.len(),
{
    if b.len() == 0 {
        assert(a + b =~= a);
    } else {
        assert((a + b).drop_last() =~= a + b.drop_last());
        lemma_insertion_in_parts(registers, a, b.drop_last());
    }
}

} // verus!
