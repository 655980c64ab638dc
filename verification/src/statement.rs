//! Text of the parameterized insert statement that the import direction
//! prepares against the target table.

use vstd::prelude::*;
use vstd::string::StringExecFns;

verus! {

/// `parts` joined by `sep`.
pub open spec fn join_with(parts: Seq<Seq<char>>, sep: Seq<char>) -> Seq<char>
    decreases parts.len(),
{
    if parts.len() == 0 {
        Seq::empty()
    } else if parts.len() == 1 {
        parts[0]
    } else {
        join_with(parts.drop_last(), sep) + sep + parts.last()
    }
}

/// One `?` placeholder per column.
pub open spec fn placeholders(n: nat) -> Seq<Seq<char>> {
    Seq::new(n, |i: int| seq!['?'])
}

/// The views of a list of strings.
pub open spec fn views_of(names: Seq<String>) -> Seq<Seq<char>> {
    Seq::new(names.len(), |i: int| names[i]@)
}

/// The full statement text: column list and placeholder list both joined
/// with `, `.
pub open spec fn spec_insert_statement(table: Seq<char>, names: Seq<Seq<char>>) -> Seq<char> {
    "INSERT INTO "@ + table + " ("@ + join_with(names, ", "@) + ") VALUES ("@ + join_with(
        placeholders(names.len()),
        ", "@,
    ) + ");"@
}

/// Builds the parameterized insert statement for `table` from the column
/// names: `INSERT INTO t (a, b) VALUES (?, ?);`.
pub fn insert_statement_text(table: &str, column_names: &Vec<String>) -> (r: String)
    ensures
        r@ == spec_insert_statement(table@, views_of(column_names@)),
{
    let ghost names = views_of(column_names@);
    let mut out: String = String::new();
    out.append("INSERT INTO ");
    out.append(table);
    out.append(" (");
    let ghost head = "INSERT INTO "@ + table@ + " ("@;
    proof {
        assert(out@ == head);
    }
    let mut i: usize = 0;
    while i < column_names.len()
        invariant
            i <= column_names@.len(),
            names == views_of(column_names@),
            head == "INSERT INTO "@ + table@ + " ("@,
            out@ == head + join_with(names.take(i as int), ", "@),
        decreases column_names@.len() - i,
    {
        if i > 0 {
            out.append(", ");
        }
        out.append(column_names[i].as_str());
        i = i + 1;
        proof {
            let t = names.take(i as int);
            assert(t.drop_last() =~= names.take(i - 1));
            assert(t.last() == names[i - 1]);
            if i == 1 {
                assert(join_with(t, ", "@) == names[0]);
                assert(out@ == head + join_with(t, ", "@));
            } else {
                assert(join_with(t, ", "@) == join_with(names.take(i - 1), ", "@) + ", "@
                    + names[i - 1]);
            }
        }
    }
    proof {
        assert(names.take(names.len() as int) =~= names);
    }
    out.append(") VALUES (");
    let ghost mid = head + join_with(names, ", "@) + ") VALUES ("@;
    let mut k: usize = 0;
    while k < column_names.len()
        invariant
            k <= column_names@.len(),
            names == views_of(column_names@),
            mid == head + join_with(names, ", "@) + ") VALUES ("@,
            out@ == mid + join_with(placeholders(names.len()).take(k as int), ", "@),
        decreases column_names@.len() - k,
    {
        if k > 0 {
            out.append(", ");
        }
        out.append("?");
        k = k + 1;
        proof {
            reveal_strlit("?");
            let ph = placeholders(names.len());
            let t = ph.take(k as int);
            assert(t.drop_last() =~= ph.take(k - 1));
            assert(t.last() =~= seq!['?']);
            assert("?"@ =~= seq!['?']);
            if k == 1 {
                assert(join_with(t, ", "@) == ph[0]);
            } else {
                assert(join_with(t, ", "@) == join_with(ph.take(k - 1), ", "@) + ", "@ + ph[k
                    - 1]);
            }
        }
    }
    proof {
        assert(placeholders(names.len()).take(names.len() as int) =~= placeholders(names.len()));
    }
    out.append(");");
    proof {
        assert(out@ == spec_insert_statement(table@, names));
    }
    out
}

} // verus!
