//! The input table as text: one record to a line, three fields to a record,
//! with a tab between two fields.

use crate::clustering::ClusterError;
use vstd::prelude::*;
use vstd::string::{StringExecFns, StringSliceAdditionalSpecFns};
use vstd::utf8::{
    encode_utf8, encode_utf8_valid_utf8, is_char_boundary, is_char_boundary_iff_is_leading_byte,
    is_char_boundary_start_end_of_seq, valid_utf8,
};

verus! {

/// The byte that ends a record.
pub const ROW_SEP: u8 = 10;

/// The byte between two fields of a record.
pub const DATA_SEP: u8 = 9;

/// The number of bytes of `b` before the first `d`, or all of them where
/// there is none.
pub open spec fn token_len(b: Seq<u8>, d: u8) -> nat
    decreases b.len(),
{
    if b.len() == 0 || b[0] == d {
        0
    } else {
        1 + token_len(b.drop_first(), d)
    }
}

/// What is left of `b` behind its first token and the `d` that ends it.
pub open spec fn after_token(b: Seq<u8>, d: u8) -> Seq<u8> {
    if token_len(b, d) < b.len() {
        b.skip(token_len(b, d) as int + 1)
    } else {
        Seq::empty()
    }
}

/// The tokens that taking one token after another off `b` yields, until
/// nothing is left. A `d` at the very end ends the last token and starts no
/// further one.
pub open spec fn tokens(b: Seq<u8>, d: u8) -> Seq<Seq<u8>>
    decreases b.len(),
{
    if b.len() == 0 {
        Seq::empty()
    } else {
        seq![b.take(token_len(b, d) as int)] + tokens(after_token(b, d), d)
    }
}

/// The first `i` bytes are the first token where none of them is `d` and
/// either a `d` follows or nothing does.
proof fn lemma_token_len(b: Seq<u8>, d: u8, i: int)
    requires
        0 <= i <= b.len(),
        forall|k: int| 0 <= k < i ==> b[k] != d,
        i < b.len() ==> b[i] == d,
    ensures
        token_len(b, d) == i,
    decreases i,
{
    if i > 0 {
        lemma_token_len(b.drop_first(), d, i - 1);
    }
}

/// In text, the place of a byte below 128 and the place behind it are
/// character boundaries.
proof fn lemma_ascii_is_bounded(b: Seq<u8>, i: int)
    requires
        valid_utf8(b),
        0 <= i < b.len(),
        b[i] < 128,
    ensures
        is_char_boundary(b, i),
        valid_utf8(b.subrange(i, b.len() as int)) ==> is_char_boundary(
            b.subrange(i, b.len() as int),
            1,
        ),
{
    is_char_boundary_iff_is_leading_byte(b, i);
    let rest = b.subrange(i, b.len() as int);
    if valid_utf8(rest) {
        assert(rest[0] == b[i]);
        reveal_with_fuel(is_char_boundary, 2);
        reveal_with_fuel(valid_utf8, 2);
    }
}

/// Takes the first token off `s`: returns the text before the first
/// `delimiter`, and leaves in `s` what stands behind that delimiter. Where
/// there is no delimiter, all of the text is returned and none is left.
pub fn strtok<'a>(s: &mut &'a str, delimiter: u8) -> (prefix: &'a str)
    requires
        delimiter < 128,
    ensures
        prefix.spec_bytes() == old(s).spec_bytes().take(
            token_len(old(s).spec_bytes(), delimiter) as int,
        ),
        final(s).spec_bytes() == after_token(old(s).spec_bytes(), delimiter),
{
    let whole: &'a str = *s;
    let bytes = whole.as_bytes();
    let n = bytes.len();
    let mut i: usize = 0;
    while i < n && bytes[i] != delimiter
        invariant
            i <= n,
            n == bytes@.len(),
            forall|k: int| 0 <= k < i ==> bytes@[k] != delimiter,
        decreases n - i,
    {
        i += 1;
    }
    proof {
        lemma_token_len(bytes@, delimiter, i as int);
        encode_utf8_valid_utf8(whole@);
        is_char_boundary_start_end_of_seq(bytes@);
        if i < n {
            lemma_ascii_is_bounded(bytes@, i as int);
        }
    }
    let (prefix, rest) = whole.split_at(i);
    if i < n {
        proof {
            encode_utf8_valid_utf8(rest@);
            assert(rest.spec_bytes() =~= bytes@.subrange(i as int, n as int));
        }
        let (_, suffix) = rest.split_at(1);
        *s = suffix;
        assert(suffix.spec_bytes() =~= bytes@.skip(i + 1));
    } else {
        *s = rest;
        assert(rest.spec_bytes() =~= Seq::<u8>::empty());
    }
    assert(prefix.spec_bytes() =~= bytes@.take(i as int));
    prefix
}

/// One record of the table as text: the labels of two items, and their score
/// as it is written.
#[derive(Debug)]
pub struct Row {
    pub from: String,
    pub to: String,
    pub value: String,
}

/// The line `line` has three fields, which are those of `row`.
pub open spec fn row_matches(row: Row, line: Seq<u8>) -> bool {
    let fields = tokens(line, DATA_SEP);
    &&& fields.len() == 3
    &&& encode_utf8(row.from@) == fields[0]
    &&& encode_utf8(row.to@) == fields[1]
    &&& encode_utf8(row.value@) == fields[2]
}

/// Splits `content` into its lines and each line into its fields. A line
/// that does not have exactly three fields is refused, the first such line
/// being named.
pub fn parse_rows(content: &str) -> (r: Result<Vec<Row>, ClusterError>)
    ensures
        match r {
            Ok(rows) => {
                &&& rows@.len() == tokens(content.spec_bytes(), ROW_SEP).len()
                &&& forall|k: int|
                    0 <= k < rows@.len() ==> row_matches(
                        #[trigger] rows@[k],
                        tokens(content.spec_bytes(), ROW_SEP)[k],
                    )
            },
            Err(e) => e matches ClusterError::WrongFieldCount { line } && {
                &&& line < tokens(content.spec_bytes(), ROW_SEP).len()
                &&& tokens(tokens(content.spec_bytes(), ROW_SEP)[line as int], DATA_SEP).len() != 3
                &&& forall|j: int|
                    0 <= j < line ==> (#[trigger] tokens(
                        tokens(content.spec_bytes(), ROW_SEP)[j],
                        DATA_SEP,
                    )).len() == 3
            },
        },
{
    let ghost all = tokens(content.spec_bytes(), ROW_SEP);
    let ghost mut done: Seq<Seq<u8>> = Seq::empty();
    let mut lines: &str = content;
    let mut rows: Vec<Row> = Vec::new();
    while lines.as_bytes().len() > 0
        invariant
            all == tokens(content.spec_bytes(), ROW_SEP),
            all == done + tokens(lines.spec_bytes(), ROW_SEP),
            rows@.len() == done.len(),
            forall|k: int| 0 <= k < rows@.len() ==> row_matches(#[trigger] rows@[k], done[k]),
        decreases lines.spec_bytes().len(),
    {
        let ghost rest_before = lines.spec_bytes();
        let mut row: &str = strtok(&mut lines, ROW_SEP);
        let ghost line = row.spec_bytes();
        let ghost mut got: Seq<Seq<u8>> = Seq::empty();
        let mut row_vec: Vec<&str> = Vec::new();
        while row.as_bytes().len() > 0
            invariant
                tokens(line, DATA_SEP) == got + tokens(row.spec_bytes(), DATA_SEP),
                row_vec@.len() == got.len(),
                forall|j: int|
                    0 <= j < got.len() ==> (#[trigger] row_vec@[j]).spec_bytes() == got[j],
            decreases row.spec_bytes().len(),
        {
            let ghost field_rest = row.spec_bytes();
            let field = strtok(&mut row, DATA_SEP);
            row_vec.push(field);
            proof {
                assert(got.push(field.spec_bytes()) + tokens(row.spec_bytes(), DATA_SEP) =~= got
                    + tokens(field_rest, DATA_SEP));
                got = got.push(field.spec_bytes());
            }
        }
        proof {
            assert(tokens(row.spec_bytes(), DATA_SEP) =~= Seq::<Seq<u8>>::empty());
            assert(got =~= tokens(line, DATA_SEP));
            assert(tokens(rest_before, ROW_SEP) =~= seq![line] + tokens(
                lines.spec_bytes(),
                ROW_SEP,
            ));
            assert(done.push(line) + tokens(lines.spec_bytes(), ROW_SEP) =~= all);
            assert forall|j: int| 0 <= j < done.len() implies (#[trigger] tokens(
                all[j],
                DATA_SEP,
            )).len() == 3 by {
                assert(row_matches(rows@[j], done[j]));
            }
        }
        if row_vec.len() != 3 {
            let bad = rows.len();
            proof {
                assert(all[bad as int] == line);
                assert(tokens(all[bad as int], DATA_SEP).len() != 3);
            }
            return Err(ClusterError::WrongFieldCount { line: bad });
        }
        let value = String::from_str(row_vec[2]);
        let to = String::from_str(row_vec[1]);
        let from = String::from_str(row_vec[0]);
        rows.push(Row { from, to, value });
        proof {
            done = done.push(line);
        }
    }
    proof {
        assert(tokens(lines.spec_bytes(), ROW_SEP) =~= Seq::<Seq<u8>>::empty());
        assert(done =~= all);
    }
    Ok(rows)
}

} // verus!
