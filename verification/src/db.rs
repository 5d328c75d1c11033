use vstd::prelude::*;

use crate::otp_importer::OTPImporter;

pub mod simple_file;

verus! {

/// Number of bytes in one key record, both on disk and in memory.
pub const DEFAULT_KEY_SIZE: usize = 96;

#[derive(PartialEq, Eq, Structural, Clone, Copy, Debug)]
pub enum DbMode {
    Read,
    ReadWrite,
}

/// The whole-record prefix of a byte sequence, split into keys of
/// `DEFAULT_KEY_SIZE` bytes each; a trailing partial record is dropped.
pub open spec fn records_of(data: Seq<u8>) -> Seq<Seq<u8>> {
    Seq::new(
        data.len() / (DEFAULT_KEY_SIZE as nat),
        |i: int| data.subrange(i * (DEFAULT_KEY_SIZE as int), (i + 1) * (DEFAULT_KEY_SIZE as int)),
    )
}

/// The byte image of a sequence of byte blocks, laid out back to back.
pub open spec fn concat_bytes(keys: Seq<Seq<u8>>) -> Seq<u8>
    decreases keys.len(),
{
    if keys.len() == 0 {
        Seq::empty()
    } else {
        concat_bytes(keys.drop_last()) + keys.last()
    }
}

/// The view of each byte vector in a sequence, as one sequence of byte
/// sequences.
pub open spec fn views_of(keys: Seq<Vec<u8>>) -> Seq<Seq<u8>> {
    Seq::new(keys.len(), |i: int| keys[i]@)
}

/// Every key holds exactly `DEFAULT_KEY_SIZE` bytes.
pub open spec fn all_keys_sized(keys: Seq<Seq<u8>>) -> bool {
    forall|i: int| 0 <= i < keys.len() ==> #[trigger] keys[i].len() == DEFAULT_KEY_SIZE
}

/// The keys a store can still hand out, as one sequence: staged keys first,
/// resident keys after them; `get_key` pops from the tail.
pub open spec fn available_of(staged: Option<Seq<Seq<u8>>>, resident: Seq<Seq<u8>>) -> Seq<Seq<u8>> {
    (match staged {
        Some(s) => s,
        None => Seq::empty(),
    }) + resident
}

/// Well-formedness of a store's two pools: all keys are whole records, and a
/// staged pool, when present, is never empty.
pub open spec fn db_wf_of(staged: Option<Seq<Seq<u8>>>, resident: Seq<Seq<u8>>) -> bool {
    &&& all_keys_sized(resident)
    &&& match staged {
        Some(s) => s.len() > 0 && all_keys_sized(s),
        None => true,
    }
}

pub proof fn lemma_concat_bytes_len(keys: Seq<Seq<u8>>)
    requires
        all_keys_sized(keys),
    ensures
        concat_bytes(keys).len() == keys.len() * (DEFAULT_KEY_SIZE as nat),
    decreases keys.len(),
{
    if keys.len() == 0 {
    } else {
        assert(all_keys_sized(keys.drop_last()));
        lemma_concat_bytes_len(keys.drop_last());
    }
}

pub proof fn lemma_concat_bytes_app(a: Seq<Seq<u8>>, b: Seq<Seq<u8>>)
    ensures
        concat_bytes(a + b) == concat_bytes(a) + concat_bytes(b),
    decreases b.len(),
{
    if b.len() == 0 {
        assert(a + b =~= a);
        assert(concat_bytes(a) + concat_bytes(b) =~= concat_bytes(a));
    } else {
        lemma_concat_bytes_app(a, b.drop_last());
        assert((a + b).drop_last() =~= a + b.drop_last());
        assert((a + b).last() == b.last());
        assert(concat_bytes(a) + concat_bytes(b) =~= (concat_bytes(a) + concat_bytes(b.drop_last()))
            + b.last());
    }
}

/// Cutting the byte image of whole-record keys back into records recovers
/// exactly the same keys: persisting and reloading a pool is lossless.
pub proof fn lemma_records_concat_roundtrip(keys: Seq<Seq<u8>>)
    requires
        all_keys_sized(keys),
    ensures
        records_of(concat_bytes(keys)) == keys,
    decreases keys.len(),
{
    let k = DEFAULT_KEY_SIZE as int;
    lemma_concat_bytes_len(keys);
    let c = concat_bytes(keys);
    if keys.len() == 0 {
        assert(records_of(c) =~= keys);
    } else {
        let front = keys.drop_last();
        assert(all_keys_sized(front));
        lemma_records_concat_roundtrip(front);
        lemma_concat_bytes_len(front);
        let cf = concat_bytes(front);
        assert forall|i: int| 0 <= i < keys.len() implies #[trigger] records_of(c)[i] == keys[i] by {
            if i < keys.len() - 1 {
                assert(records_of(c)[i] =~= records_of(cf)[i]);
                assert(records_of(cf)[i] == front[i]);
            } else {
                assert(records_of(c)[i] =~= keys.last());
            }
        }
        assert(records_of(c) =~= keys);
    }
}

/// The byte image of the first `n` records of a byte sequence is the
/// sequence's first `n * DEFAULT_KEY_SIZE` bytes.
pub proof fn lemma_concat_records_take(data: Seq<u8>, n: int)
    requires
        0 <= n <= data.len() / (DEFAULT_KEY_SIZE as nat),
    ensures
        concat_bytes(records_of(data).take(n)) == data.take(n * (DEFAULT_KEY_SIZE as int)),
    decreases n,
{
    let k = DEFAULT_KEY_SIZE as int;
    vstd::arithmetic::div_mod::lemma_remainder_lower(data.len() as int, k);
    if n == 0 {
        assert(concat_bytes(records_of(data).take(0)) =~= data.take(0));
    } else {
        lemma_concat_records_take(data, n - 1);
        assert(records_of(data).take(n).drop_last() =~= records_of(data).take(n - 1));
        assert(records_of(data).take(n).last() == data.subrange((n - 1) * k, n * k));
        assert(data.take((n - 1) * k) + data.subrange((n - 1) * k, n * k) =~= data.take(n * k));
    }
}

pub proof fn lemma_views_of_push(v: Seq<Vec<u8>>, x: Vec<u8>)
    ensures
        views_of(v.push(x)) == views_of(v).push(x@),
{
    assert forall|j: int| 0 <= j < v.len() + 1 implies views_of(v.push(x))[j] == views_of(
        v,
    ).push(x@)[j] by {
        if j < v.len() {
            assert(v.push(x)[j] == v[j]);
        } else {
            assert(v.push(x)[j] == x);
        }
    }
    assert(views_of(v.push(x)) =~= views_of(v).push(x@));
}

pub proof fn lemma_views_of_drop_last(v: Seq<Vec<u8>>)
    requires
        v.len() > 0,
    ensures
        views_of(v.drop_last()) == views_of(v).drop_last(),
{
    assert forall|j: int| 0 <= j < v.len() - 1 implies views_of(v.drop_last())[j] == views_of(
        v,
    ).drop_last()[j] by {
        assert(v.drop_last()[j] == v[j]);
    }
    assert(views_of(v.drop_last()) =~= views_of(v).drop_last());
}

/// Cutting a byte sequence into records reads only its whole-record prefix:
/// truncating the bytes to that prefix first changes nothing.
pub proof fn lemma_records_of_prefix(data: Seq<u8>)
    ensures
        records_of(
            data.take(((data.len() / (DEFAULT_KEY_SIZE as nat)) * (DEFAULT_KEY_SIZE as nat)) as int),
        ) == records_of(data),
{
    let k = DEFAULT_KEY_SIZE as int;
    let q = data.len() as int / k;
    vstd::arithmetic::div_mod::lemma_remainder_lower(data.len() as int, k);
    vstd::arithmetic::div_mod::lemma_div_by_multiple(q, k);
    let trunc = data.take(q * k);
    assert(trunc.len() == q * k);
    assert(records_of(trunc).len() == q);
    assert forall|i: int| 0 <= i < q implies #[trigger] records_of(trunc)[i] == records_of(
        data,
    )[i] by {
        assert((i + 1) * k <= q * k) by (nonlinear_arith)
            requires
                i < q,
                k > 0,
        ;
        assert(records_of(trunc)[i] =~= records_of(data)[i]);
    }
    assert(records_of(trunc) =~= records_of(data));
}

pub trait DbInterface: Sized {
    /// Keys loaded from the backing file, oldest first.
    spec fn resident(&self) -> Seq<Seq<u8>>;

    /// Keys staged by imports in this session, not yet committed to disk.
    spec fn staged(&self) -> Option<Seq<Seq<u8>>>;

    /// Whether the in-memory pools differ from the last persisted state.
    spec fn dirty(&self) -> bool;

    /// Partitions the importer's raw bytes into whole records, appends them to
    /// the staged pool in source order, and reports how many bytes were
    /// absorbed; remainder bytes are dropped.
    fn add_entropy<I: OTPImporter>(&mut self, importer: &I) -> (absorbed: usize)
        requires
            db_wf_of(old(self).staged(), old(self).resident()),
        ensures
            db_wf_of(final(self).staged(), final(self).resident()),
            final(self).resident() == old(self).resident(),
            absorbed == (importer.data_view().len() / (DEFAULT_KEY_SIZE as nat)) * (
            DEFAULT_KEY_SIZE as nat),
            records_of(importer.data_view()).len() == 0 ==> final(self).staged() == old(self).staged() && final(self).dirty() == old(self).dirty(),
            records_of(importer.data_view()).len() > 0 ==> {
                &&& final(self).staged() matches Some(s) && s == available_of(
                    old(self).staged(),
                    Seq::empty(),
                ) + records_of(importer.data_view())
                &&& final(self).dirty()
            },
    ;

    /// Pops the most recently added key, preferring the resident pool; when the
    /// resident pool is empty the remainder of the staged pool becomes the new
    /// resident pool. Returns nothing once both pools are empty.
    fn get_key(&mut self) -> (result: Option<Vec<u8>>)
        requires
            db_wf_of(old(self).staged(), old(self).resident()),
        ensures
            db_wf_of(final(self).staged(), final(self).resident()),
            available_of(old(self).staged(), old(self).resident()).len() == 0 ==> result is None
                && final(self).staged() == old(self).staged() && final(self).resident() == old(self).resident() && final(self).dirty() == old(self).dirty(),
            available_of(old(self).staged(), old(self).resident()).len() > 0 ==> {
                let avail = available_of(old(self).staged(), old(self).resident());
                &&& result matches Some(key) && key@ == avail.last() && key@.len()
                    == DEFAULT_KEY_SIZE
                &&& available_of(final(self).staged(), final(self).resident())
                    == avail.drop_last()
                &&& final(self).dirty()
            },
            old(self).resident().len() > 0 ==> final(self).resident() == old(self).resident().drop_last() && final(self).staged() == old(self).staged(),
            old(self).resident().len() == 0 && old(self).staged() is Some ==> final(self).resident() == old(self).staged().unwrap().drop_last() && final(self).staged()
                is None,
    ;

    /// A view of the resident pool for statistics, or nothing when it is
    /// empty; the staged pool is not considered.
    fn keys(&self) -> (result: Option<&Vec<Vec<u8>>>)
        ensures
            self.resident().len() == 0 ==> result is None,
            self.resident().len() > 0 ==> (result matches Some(v) && views_of(v@)
                == self.resident()),
    ;
}

} // verus!