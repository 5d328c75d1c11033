use vstd::prelude::*;

use crate::db::available_of;
use crate::db::db_wf_of;
use crate::db::lemma_records_of_prefix;
use crate::db::records_of;
use crate::db::DbInterface;
use crate::db::DEFAULT_KEY_SIZE;
use crate::otp_importer::bin_file::BinaryFileImporter;
use crate::otp_importer::text_file_hex::parsed_bytes;
use crate::otp_importer::text_file_hex::valid_text;
use crate::otp_importer::text_file_hex::TextFileHexImporter;
use crate::otp_importer::OTPImporter;
use vstd::slice::slice_subrange;

verus! {

/// One output byte of the pad cipher: the key byte, combined with the data
/// byte where one exists, and then with the repeating password where a
/// password was given. The order of the two combinations is fixed.
pub open spec fn cipher_byte(data: Seq<u8>, key: Seq<u8>, password: Seq<u8>, i: int) -> u8 {
    let masked = if i < data.len() {
        key[i] ^ data[i]
    } else {
        key[i]
    };
    if password.len() > 0 {
        masked ^ password[i % (password.len() as int)]
    } else {
        masked
    }
}

/// The cipher's whole output block: always as long as the key, whatever the
/// data length.
pub open spec fn spec_encrypt(data: Seq<u8>, key: Seq<u8>, password: Seq<u8>) -> Seq<u8> {
    Seq::new(key.len(), |i: int| cipher_byte(data, key, password, i))
}

/// Combines a data block with one key and an optional password. The output
/// always spans the whole key; entropy bytes beyond the data length are
/// combined with the password keystream alone, or passed through unchanged
/// when no password was given.
pub fn encrypt(data: &[u8], entropy: &[u8], password: &[u8]) -> (result: Vec<u8>)
    requires
        data@.len() <= entropy@.len(),
    ensures
        result@ == spec_encrypt(data@, entropy@, password@),
{
    let mut result: Vec<u8> = Vec::new();
    let mut idx: usize = 0;
    while idx < entropy.len()
        invariant
            idx <= entropy@.len(),
            data@.len() <= entropy@.len(),
            result@.len() == idx,
            forall|j: int| 0 <= j < idx ==> result@[j] == cipher_byte(
                data@,
                entropy@,
                password@,
                j,
            ),
        decreases entropy@.len() - idx,
    {
        let mut byte = entropy[idx];
        if idx < data.len() {
            byte = byte ^ data[idx];
        }
        if password.len() > 0 {
            byte = byte ^ password[idx % password.len()];
        }
        result.push(byte);
        idx += 1;
    }
    proof {
        assert(result@ =~= spec_encrypt(data@, entropy@, password@));
    }
    result
}

/// Law: the cipher is self-inverse. Running the cipher again on the first
/// `data.len()` bytes of its own output, with the same key and password,
/// recovers the data in the first `data.len()` bytes.
pub proof fn lemma_encrypt_self_inverse(data: Seq<u8>, key: Seq<u8>, password: Seq<u8>)
    requires
        data.len() <= key.len(),
    ensures
        spec_encrypt(spec_encrypt(data, key, password).take(data.len() as int), key, password).take(
            data.len() as int,
        ) == data,
{
    let dlen = data.len() as int;
    let once = spec_encrypt(data, key, password);
    let cut = once.take(dlen);
    let twice = spec_encrypt(cut, key, password);
    assert(forall|k: u8, d: u8| (k ^ (k ^ d)) == d) by (bit_vector);
    assert(forall|k: u8, d: u8, p: u8| (k ^ ((k ^ d) ^ p)) ^ p == d) by (bit_vector);
    assert forall|i: int| 0 <= i < dlen implies twice[i] == data[i] by {
        assert(cut[i] == cipher_byte(data, key, password, i));
        assert(twice[i] == cipher_byte(cut, key, password, i));
    }
    assert(twice.take(dlen) =~= data);
}

/// The number of chunks an input of `len` bytes splits into: every chunk is a
/// whole record except that the final one may be shorter.
pub open spec fn num_chunks(len: nat) -> int {
    (len as int + (DEFAULT_KEY_SIZE as int) - 1) / (DEFAULT_KEY_SIZE as int)
}

/// The bytes of the input's `j`-th chunk.
pub open spec fn chunk_of(data: Seq<u8>, j: int) -> Seq<u8> {
    let k = DEFAULT_KEY_SIZE as int;
    if (j + 1) * k <= data.len() {
        data.subrange(j * k, (j + 1) * k)
    } else {
        data.subrange(j * k, data.len() as int)
    }
}

/// Imports a binary entropy file's bytes into the store: as many whole
/// records as the bytes hold are staged, in source order; the remainder is
/// dropped. Returns the number of bytes absorbed.
pub fn binary_file_import<D: DbInterface>(contents: &[u8], db: &mut D) -> (absorbed: usize)
    requires
        db_wf_of(old(db).staged(), old(db).resident()),
    ensures
        db_wf_of(final(db).staged(), final(db).resident()),
        final(db).resident() == old(db).resident(),
        absorbed == (contents@.len() / (DEFAULT_KEY_SIZE as nat)) * (DEFAULT_KEY_SIZE as nat),
        records_of(contents@).len() == 0 ==> final(db).staged() == old(db).staged() && final(db).dirty() == old(db).dirty(),
        records_of(contents@).len() > 0 ==> (final(db).staged() matches Some(s) && s
            == available_of(old(db).staged(), Seq::empty()) + records_of(contents@) && final(db).dirty()),
{
    let importer = BinaryFileImporter::new(contents);
    proof {
        lemma_records_of_prefix(contents@);
        vstd::arithmetic::div_mod::lemma_div_by_multiple(
            contents@.len() as int / (DEFAULT_KEY_SIZE as int),
            DEFAULT_KEY_SIZE as int,
        );
    }
    db.add_entropy(&importer)
}

/// Imports a hex text entropy file into the store: the text is parsed into
/// bytes, as many whole records as those bytes hold are staged, and the
/// remainder is dropped. A malformed token is a fatal parse error: the whole
/// import is rejected and the store is left untouched.
pub fn text_file_hex_import<D: DbInterface>(contents: &[u8], db: &mut D) -> (absorbed: Option<
    usize,
>)
    requires
        db_wf_of(old(db).staged(), old(db).resident()),
    ensures
        db_wf_of(final(db).staged(), final(db).resident()),
        absorbed is Some <==> valid_text(contents@),
        absorbed is None ==> *final(db) == *old(db),
        absorbed matches Some(n) ==> {
            let data = parsed_bytes(contents@);
            &&& n == (data.len() / (DEFAULT_KEY_SIZE as nat)) * (DEFAULT_KEY_SIZE as nat)
            &&& final(db).resident() == old(db).resident()
            &&& records_of(data).len() == 0 ==> final(db).staged() == old(db).staged() && final(db).dirty() == old(db).dirty()
            &&& records_of(data).len() > 0 ==> (final(db).staged() matches Some(s) && s
                == available_of(old(db).staged(), Seq::empty()) + records_of(data) && final(db).dirty())
        },
{
    match TextFileHexImporter::new(contents) {
        Some(importer) => Some(db.add_entropy(&importer)),
        None => None,
    }
}

/// Runs the input through the cipher chunk by chunk: each chunk, full or
/// partial, consumes one key from the store; processing stops as soon as no
/// key is available, leaving the rest of the input unprocessed. Every block
/// produced spans a whole key, so the output length is always a multiple of
/// the key size.
pub fn process_data<D: DbInterface>(data: &[u8], db: &mut D, password: &[u8]) -> (blocks: Vec<
    Vec<u8>,
>)
    requires
        db_wf_of(old(db).staged(), old(db).resident()),
    ensures
        db_wf_of(final(db).staged(), final(db).resident()),
        ({
            let avail = available_of(old(db).staged(), old(db).resident());
            let total = num_chunks(data@.len());
            let used = if total <= avail.len() {
                total
            } else {
                avail.len() as int
            };
            &&& blocks@.len() == used
            &&& forall|j: int|
                0 <= j < used ==> #[trigger] blocks@[j]@ == spec_encrypt(
                    chunk_of(data@, j),
                    avail[avail.len() - 1 - j],
                    password@,
                )
            &&& available_of(final(db).staged(), final(db).resident()) == avail.take(
                avail.len() - used,
            )
            &&& used > 0 ==> final(db).dirty()
            &&& used == 0 ==> final(db).dirty() == old(db).dirty() && final(db).staged() == old(db).staged() && final(db).resident() == old(db).resident()
        }),
{
    let ghost avail = available_of(old(db).staged(), old(db).resident());
    let ghost k = DEFAULT_KEY_SIZE as int;
    let mut blocks: Vec<Vec<u8>> = Vec::new();
    let mut pos: usize = 0;
    let len = data.len();
    let mut stopped = false;
    while pos < len && !stopped
        invariant
            len == data@.len(),
            len <= usize::MAX,
            db_wf_of(db.staged(), db.resident()),
            avail == available_of(old(db).staged(), old(db).resident()),
            blocks@.len() <= avail.len(),
            blocks@.len() <= num_chunks(len as nat),
            pos as int == if blocks@.len() * (DEFAULT_KEY_SIZE as int) <= len {
                blocks@.len() * (DEFAULT_KEY_SIZE as int)
            } else {
                len as int
            },
            available_of(db.staged(), db.resident()) == avail.take(
                avail.len() - blocks@.len(),
            ),
            forall|j: int|
                0 <= j < blocks@.len() ==> #[trigger] blocks@[j]@ == spec_encrypt(
                    chunk_of(data@, j),
                    avail[avail.len() - 1 - j],
                    password@,
                ),
            blocks@.len() > 0 ==> db.dirty(),
            blocks@.len() == 0 ==> db.dirty() == old(db).dirty() && db.staged() == old(db).staged() && db.resident() == old(db).resident(),
            stopped ==> blocks@.len() == avail.len() && pos < len,
            blocks@.len() * (DEFAULT_KEY_SIZE as int) > len ==> (blocks@.len() - 1) * (
            DEFAULT_KEY_SIZE as int) < len,
        decreases len - pos + (if stopped {
            0int
        } else {
            1int
        }),
    {
        let ghost j = blocks@.len() as int;
        let ghost avail_now = available_of(db.staged(), db.resident());
        let end = if len - pos >= DEFAULT_KEY_SIZE {
            pos + DEFAULT_KEY_SIZE
        } else {
            len
        };
        match db.get_key() {
            Some(key) => {
                proof {
                    assert(avail_now.len() > 0);
                    assert(avail_now.last() == avail[avail.len() - 1 - j]);
                    assert(avail_now.drop_last() =~= avail.take(avail.len() - (j + 1)));
                    assert(data@.subrange(pos as int, end as int) == chunk_of(data@, j));
                }
                let chunk = slice_subrange(data, pos, end);
                let block = encrypt(chunk, key.as_slice(), password);
                blocks.push(block);
                pos = end;
            },
            None => {
                proof {
                    assert(avail_now.len() == 0);
                    assert(avail.take(avail.len() - j).len() == 0);
                }
                stopped = true;
            },
        }
    }
    proof {
        let j = blocks@.len() as int;
        let total = num_chunks(len as nat) as int;
        if stopped {
            assert(j == avail.len());
            assert(j * k < len) by (nonlinear_arith)
                requires
                    pos as int == if j * k <= len {
                        j * k
                    } else {
                        len as int
                    },
                    pos < len,
            ;
            assert(total > j) by (nonlinear_arith)
                requires
                    total == (len + k - 1) / k,
                    j * k < len,
                    k == 96,
                    0 <= j,
                    0 <= len,
            ;
        } else {
            assert(pos >= len);
            if j * k <= len {
                assert(j * k == len);
                assert(total == j) by (nonlinear_arith)
                    requires
                        total == (len + k - 1) / k,
                        j * k == len,
                        k == 96,
                        0 <= j,
                ;
            } else {
                assert(pos as int == len);
                assert(total == j) by (nonlinear_arith)
                    requires
                        total == (len + k - 1) / k,
                        (j - 1) * k < len,
                        j * k > len,
                        k == 96,
                        0 <= j,
                        0 <= len,
                ;
            }
        }
    }
    blocks
}

} // verus!
