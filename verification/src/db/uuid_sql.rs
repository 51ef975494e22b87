//! SQL fragments for identifier columns that may hold a UUID as text or as
//! a blob of sixteen bytes.

use vstd::prelude::*;
use vstd::string::*;

verus! {

/// Where the name behind the last dot of `col` begins; 0 where `col` has
/// no dot.
pub open spec fn alias_start(col: Seq<char>) -> int
    decreases col.len(),
{
    if col.len() == 0 {
        0
    } else if col.last() == '.' {
        col.len() as int
    } else {
        alias_start(col.drop_last())
    }
}

/// The text of `case_uuid` for the column `col`.
pub open spec fn case_uuid_text(col: Seq<char>) -> Seq<char> {
    "CASE WHEN typeof("@ + col + ")='blob' THEN lower(substr(hex("@ + col + "),1,8) || '-' || substr(hex("@
        + col + "),9,4) || '-' || substr(hex("@ + col + "),13,4) || '-' || substr(hex("@ + col
        + "),17,4) || '-' || substr(hex("@ + col + "),21)) ELSE "@ + col + " END as "@ + col.skip(
        alias_start(col),
    )
}

/// The text of `match_uuid_clause` for the column `col`.
pub open spec fn match_uuid_text(col: Seq<char>) -> Seq<char> {
    "((typeof("@ + col + ")='blob' AND hex("@ + col + ")=upper(replace(?,'-',''))) OR (typeof("@ + col
        + ")='text' AND "@ + col + " = ?))"@
}

/// A select expression that gives the column `col` as text in the usual
/// hyphenated form, whichever way it is stored, under the name behind the
/// last dot of `col`.
pub fn case_uuid(col: &str) -> (sql: String)
    ensures
        sql@ == case_uuid_text(col@),
{
    let n: usize = col.unicode_len();
    let mut start: usize = n;
    proof {
        assert(col@.take(n as int) =~= col@);
    }
    while start > 0 && col.get_char(start - 1) != '.'
        invariant
            start <= n,
            n == col@.len(),
            alias_start(col@) == alias_start(col@.take(start as int)),
        decreases start,
    {
        proof {
            assert(col@.take(start as int).drop_last() =~= col@.take(start as int - 1));
        }
        start -= 1;
    }
    proof {
        assert(col@.subrange(start as int, n as int) =~= col@.skip(start as int));
    }
    let alias = col.substring_char(start, n);
    let mut sql = String::from_str("CASE WHEN typeof(");
    sql.append(col);
    sql.append(")='blob' THEN lower(substr(hex(");
    sql.append(col);
    sql.append("),1,8) || '-' || substr(hex(");
    sql.append(col);
    sql.append("),9,4) || '-' || substr(hex(");
    sql.append(col);
    sql.append("),13,4) || '-' || substr(hex(");
    sql.append(col);
    sql.append("),17,4) || '-' || substr(hex(");
    sql.append(col);
    sql.append("),21)) ELSE ");
    sql.append(col);
    sql.append(" END as ");
    sql.append(alias);
    sql
}

/// A predicate with two placeholders that holds where the column `col`
/// equals a UUID given as hyphenated text, whichever way it is stored.
pub fn match_uuid_clause(col: &str) -> (sql: String)
    ensures
        sql@ == match_uuid_text(col@),
{
    let mut sql = String::from_str("((typeof(");
    sql.append(col);
    sql.append(")='blob' AND hex(");
    sql.append(col);
    sql.append(")=upper(replace(?,'-',''))) OR (typeof(");
    sql.append(col);
    sql.append(")='text' AND ");
    sql.append(col);
    sql.append(" = ?))");
    sql
}

} // verus!
