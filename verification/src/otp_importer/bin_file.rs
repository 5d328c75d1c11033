use vstd::prelude::*;

use crate::db::DEFAULT_KEY_SIZE;
use crate::otp_importer::OTPImporter;
use vstd::arithmetic::div_mod::lemma_remainder_lower;
use vstd::slice::slice_subrange;
use vstd::slice::slice_to_vec;

verus! {

/// Entropy read from a binary file: the file's bytes are taken in
/// `DEFAULT_KEY_SIZE`-byte chunks, and the first short chunk and anything
/// after it is discarded.
pub struct BinaryFileImporter {
    data: Vec<u8>,
}

impl BinaryFileImporter {
    /// Builds the importer from the file's bytes, keeping only the
    /// whole-record prefix.
    pub fn new(contents: &[u8]) -> (importer: Self)
        ensures
            importer.data_view() == contents@.take(
                ((contents@.len() / (DEFAULT_KEY_SIZE as nat)) * (DEFAULT_KEY_SIZE as nat)) as int,
            ),
    {
        proof {
            lemma_remainder_lower(contents@.len() as int, DEFAULT_KEY_SIZE as int);
        }
        let whole = (contents.len() / DEFAULT_KEY_SIZE) * DEFAULT_KEY_SIZE;
        let data = slice_to_vec(slice_subrange(contents, 0, whole));
        proof {
            assert(data@ =~= contents@.take(whole as int));
        }
        BinaryFileImporter { data }
    }
}

impl OTPImporter for BinaryFileImporter {
    closed spec fn data_view(&self) -> Seq<u8> {
        self.data@
    }

    fn entropy_data(&self) -> (data: &Vec<u8>) {
        &self.data
    }
}

} // verus!
