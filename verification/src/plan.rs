//! Batch and output-file planning for one transcoding job.
//!
//! A job moves `rows` rows in chunks of `batch_size`; when the output is
//! split, every `batches_per_file` consecutive batches go to one numbered
//! file. All of it is simple arithmetic, stated here once so that the
//! driving loop can be checked against it.

use vstd::prelude::*;

verus! {

/// Number of batches needed to move `rows` rows in chunks of `batch_size`.
pub open spec fn spec_num_batches(rows: nat, batch_size: nat) -> nat
    recommends
        batch_size > 0,
{
    ((rows + batch_size - 1) / batch_size as int) as nat
}

/// Number of rows inside batch `index` (0-based): every batch is full except
/// possibly the last one.
pub open spec fn spec_rows_in_batch(rows: nat, batch_size: nat, index: nat) -> nat
    recommends
        batch_size > 0,
        index < spec_num_batches(rows, batch_size),
{
    if rows - index * batch_size >= batch_size {
        batch_size
    } else {
        (rows - index * batch_size) as nat
    }
}

/// Index of the output file that batch `index` belongs to.
pub open spec fn spec_file_of_batch(index: nat, batches_per_file: nat) -> nat
    recommends
        batches_per_file > 0,
{
    (index as int / batches_per_file as int) as nat
}

/// Ceiling division: how many batches a row count splits into.
pub fn num_batches(rows: usize, batch_size: usize) -> (n: usize)
    requires
        batch_size > 0,
    ensures
        n == spec_num_batches(rows as nat, batch_size as nat),
        rows == 0 ==> n == 0,
        rows > 0 ==> n > 0,
{
    if rows == 0 {
        proof {
            vstd::arithmetic::div_mod::lemma_basic_div(batch_size - 1, batch_size as int);
        }
        0
    } else {
        let n: usize = (rows - 1) / batch_size + 1;
        proof {
            vstd::arithmetic::div_mod::lemma_div_plus_one(rows - 1, batch_size as int);
            vstd::arithmetic::div_mod::lemma_div_pos_is_pos(
                rows + batch_size - 1,
                batch_size as int,
            );
        }
        n
    }
}

/// How many rows batch `index` carries.
pub fn rows_in_batch(rows: usize, batch_size: usize, index: usize) -> (n: usize)
    requires
        batch_size > 0,
        index < spec_num_batches(rows as nat, batch_size as nat),
    ensures
        n == spec_rows_in_batch(rows as nat, batch_size as nat, index as nat),
        1 <= n <= batch_size,
{
    proof {
        lemma_batch_start_in_range(rows as nat, batch_size as nat, index as nat);
    }
    let start: usize = index * batch_size;
    let remaining: usize = rows - start;
    if remaining >= batch_size {
        batch_size
    } else {
        remaining
    }
}

/// Which output file a batch lands in when the output is split every
/// `batches_per_file` batches.
pub fn file_of_batch(index: usize, batches_per_file: usize) -> (f: usize)
    requires
        batches_per_file > 0,
    ensures
        f == spec_file_of_batch(index as nat, batches_per_file as nat),
{
    index / batches_per_file
}

/// A batch index below the batch count starts strictly before `rows`.
pub proof fn lemma_batch_start_in_range(rows: nat, batch_size: nat, index: nat)
    requires
        batch_size > 0,
        index < spec_num_batches(rows, batch_size),
    ensures
        index * batch_size < rows,
        rows - index * batch_size >= batch_size ==> spec_rows_in_batch(
            rows,
            batch_size,
            index,
        ) == batch_size,
{
    let nb = spec_num_batches(rows, batch_size) as int;
    assert(index + 1 <= nb);
    assert((rows + batch_size - 1) / batch_size as int == nb);
    vstd::arithmetic::div_mod::lemma_remainder_lower(rows + batch_size - 1, batch_size as int);
    vstd::arithmetic::div_mod::lemma_remainder_upper(rows + batch_size - 1, batch_size as int);
    assert(rows + batch_size - 1 < (nb + 1) * batch_size) by {
        vstd::arithmetic::mul::lemma_mul_is_distributive_add_other_way(
            batch_size as int,
            nb,
            1,
        );
    }
    assert((index + 1) * batch_size <= nb * batch_size) by {
        vstd::arithmetic::mul::lemma_mul_inequality(index as int + 1, nb, batch_size as int);
    }
    assert(nb * batch_size <= rows + batch_size - 1);
    assert((index + 1) * batch_size == index * batch_size + batch_size) by {
        vstd::arithmetic::mul::lemma_mul_is_distributive_add_other_way(
            batch_size as int,
            index as int,
            1,
        );
    }
}

/// Splitting a job's batches in groups of `batches_per_file` produces
/// exactly `ceil(batches / batches_per_file)` numbered files: every batch
/// lands in a file below that count, and with one batch per file the file
/// number is the batch number, so as many files come out as batches.
pub proof fn lemma_batches_to_files(n_batches: nat, batches_per_file: nat, index: nat)
    requires
        batches_per_file > 0,
        index < n_batches,
    ensures
        spec_file_of_batch(index, batches_per_file) < spec_num_batches(
            n_batches,
            batches_per_file,
        ),
        batches_per_file == 1 ==> spec_file_of_batch(index, 1) == index,
{
    let bpf = batches_per_file as int;
    vstd::arithmetic::div_mod::lemma_div_plus_one(n_batches - 1, bpf);
    assert((n_batches - 1) / bpf + 1 == (n_batches + bpf - 1) / bpf);
    vstd::arithmetic::div_mod::lemma_div_is_ordered(index as int, n_batches - 1, bpf);
    assert(index as int / 1 == index) by {
        vstd::arithmetic::div_mod::lemma_div_multiples_vanish(index as int, 1);
    }
}

} // verus!
