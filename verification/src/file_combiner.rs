use vstd::prelude::*;

use crate::file_formatter::{chain_text, FileFormatters, Fragment};
use crate::sql_file::SqlFile;

verus! {

/// The error reported when the destination cannot be opened or written.
#[derive(Clone, Debug)]
pub struct CombineError;

/// The full contents of the destination artifact: every record's formatted
/// block, in the given order, with nothing between consecutive blocks.
pub open spec fn combined_text(files: Seq<SqlFile>, chain: Seq<Fragment>) -> Seq<char>
    decreases files.len(),
{
    if files.len() == 0 {
        Seq::empty()
    } else {
        chain_text(chain, files.first()@) + combined_text(files.drop_first(), chain)
    }
}

/// Renders every record with the formatter and concatenates the blocks in
/// order: the exact text the combiner writes to the destination.
pub fn combine_sql_text(files: &Vec<SqlFile>, formatter: &FileFormatters) -> (r: String)
    ensures
        r@ == combined_text(files@, formatter@),
{
    let n = files.len();
    let mut out = String::new();
    let mut i: usize = 0;
    proof {
        assert(files@.skip(0) =~= files@);
    }
    while i < n
        invariant
            n == files@.len(),
            i <= n,
            out@ + combined_text(files@.skip(i as int), formatter@) == combined_text(
                files@,
                formatter@,
            ),
        decreases n - i,
    {
        let ghost out0 = out@;
        let block = formatter.format(&files[i]);
        out.append(block.as_str());
        proof {
            assert(files@.skip(i as int)[0] == files@[i as int]);
            assert(files@.skip(i as int).drop_first() =~= files@.skip(i as int + 1));
            assert(combined_text(files@.skip(i as int), formatter@) == chain_text(
                formatter@,
                files@[i as int]@,
            ) + combined_text(files@.skip(i as int + 1), formatter@));
            assert(out@ + combined_text(files@.skip(i as int + 1), formatter@) =~= out0
                + combined_text(files@.skip(i as int), formatter@));
        }
        i = i + 1;
    }
    proof {
        assert(combined_text(files@.skip(n as int), formatter@) =~= Seq::<char>::empty());
        assert(out@ + combined_text(files@.skip(n as int), formatter@) =~= out@);
    }
    out
}

} // verus!
