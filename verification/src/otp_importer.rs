use vstd::prelude::*;

pub mod bin_file;
pub mod text_file_hex;

verus! {

/// A source of raw entropy bytes, computed once at construction.
pub trait OTPImporter: Sized {
    /// The raw entropy bytes this importer holds.
    spec fn data_view(&self) -> Seq<u8>;

    fn entropy_data(&self) -> (data: &Vec<u8>)
        ensures
            data@ == self.data_view(),
    ;
}

} // verus!
