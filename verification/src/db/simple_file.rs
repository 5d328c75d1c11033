use vstd::prelude::*;

use crate::db::all_keys_sized;
use crate::db::available_of;
use crate::db::concat_bytes;
use crate::db::db_wf_of;
use crate::db::lemma_concat_bytes_app;
use crate::db::lemma_concat_records_take;
use crate::db::lemma_records_concat_roundtrip;
use crate::db::lemma_views_of_drop_last;
use crate::db::lemma_views_of_push;
use crate::db::views_of;
use crate::db::records_of;
use crate::db::DbInterface;
use crate::db::DbMode;
use crate::db::DEFAULT_KEY_SIZE;
use crate::otp_importer::OTPImporter;
use vstd::arithmetic::div_mod::lemma_fundamental_div_mod;
use vstd::arithmetic::div_mod::lemma_remainder_lower;
use vstd::slice::slice_subrange;
use vstd::slice::slice_to_vec;

verus! {

/// A key store backed by a single flat file of fixed-size records. The
/// resident pool holds the keys loaded from the file at open time; the staged
/// pool holds keys imported in this session and not yet committed.
pub struct SimpleFileDb {
    keys: Vec<Vec<u8>>,
    imported_keys: Option<Vec<Vec<u8>>>,
    modified: bool,
    file_name: String,
    mode: DbMode,
}

/// What a close writes back: nothing when the store was opened read-only or
/// is clean; otherwise the staged keys followed by the resident keys, back to
/// back.
pub open spec fn close_payload_of(
    mode: DbMode,
    dirty: bool,
    staged: Option<Seq<Seq<u8>>>,
    resident: Seq<Seq<u8>>,
) -> Option<Seq<u8>> {
    if mode == DbMode::Read || !dirty {
        None
    } else {
        Some(concat_bytes(available_of(staged, resident)))
    }
}

/// Appends every key's bytes to `bytes`, in order.
fn append_keys(bytes: &mut Vec<u8>, keys: &Vec<Vec<u8>>)
    ensures
        final(bytes)@ == old(bytes)@ + concat_bytes(views_of(keys@)),
{
    let ghost all = views_of(keys@);
    proof {
        assert(bytes@ =~= old(bytes)@ + concat_bytes(all.take(0)));
    }
    let mut i: usize = 0;
    while i < keys.len()
        invariant
            i <= keys@.len(),
            all == views_of(keys@),
            bytes@ == old(bytes)@ + concat_bytes(all.take(i as int)),
        decreases keys@.len() - i,
    {
        bytes.extend_from_slice(keys[i].as_slice());
        proof {
            assert(all.take(i + 1).drop_last() =~= all.take(i as int));
            assert(all.take(i + 1).last() == keys@[i as int]@);
            assert(bytes@ =~= old(bytes)@ + concat_bytes(all.take(i + 1)));
        }
        i += 1;
    }
    proof {
        assert(all.take(keys@.len() as int) =~= all);
    }
}

impl SimpleFileDb {
    pub closed spec fn mode_spec(&self) -> DbMode {
        self.mode
    }

    pub closed spec fn file_name_spec(&self) -> Seq<char> {
        self.file_name@
    }

    /// Opens a store over the backing file's current bytes: the resident pool
    /// becomes the file's whole records, the trailing partial record is
    /// silently discarded, nothing is staged and nothing is dirty.
    pub fn new(file_name: String, mode: DbMode, contents: &[u8]) -> (db: Self)
        ensures
            db.resident() == records_of(contents@),
            db.staged() is None,
            !db.dirty(),
            db.mode_spec() == mode,
            db.file_name_spec() == file_name@,
            db_wf_of(db.staged(), db.resident()),
    {
        proof {
            lemma_remainder_lower(contents@.len() as int, DEFAULT_KEY_SIZE as int);
        }
        let count = contents.len() / DEFAULT_KEY_SIZE;
        let mut keys: Vec<Vec<u8>> = Vec::new();
        let mut i: usize = 0;
        while i < count
            invariant
                count == contents@.len() / (DEFAULT_KEY_SIZE as nat),
                count * DEFAULT_KEY_SIZE <= contents@.len(),
                contents@.len() <= usize::MAX,
                i <= count,
                views_of(keys@) =~= records_of(contents@).take(i as int),
            decreases count - i,
        {
            proof {
                assert(i * DEFAULT_KEY_SIZE + DEFAULT_KEY_SIZE == (i + 1) * DEFAULT_KEY_SIZE
                    && (i + 1) * DEFAULT_KEY_SIZE <= count * DEFAULT_KEY_SIZE) by (nonlinear_arith)
                    requires
                        i < count,
                ;
            }
            let start = i * DEFAULT_KEY_SIZE;
            let record = slice_to_vec(slice_subrange(contents, start, start + DEFAULT_KEY_SIZE));
            proof {
                assert(record@ == records_of(contents@)[i as int]);
            }
            let ghost keys0 = keys@;
            keys.push(record);
            proof {
                assert(records_of(contents@).len() == count);
                lemma_views_of_push(keys0, record);
                assert(records_of(contents@).take(i + 1) =~= records_of(contents@).take(
                    i as int,
                ).push(records_of(contents@)[i as int]));
                assert(views_of(keys@) =~= records_of(contents@).take(i + 1));
            }
            i += 1;
        }
        proof {
            assert(views_of(keys@) =~= records_of(contents@));
        }
        SimpleFileDb { keys, imported_keys: None, modified: false, file_name, mode }
    }

    /// A view of the staged pool, or nothing when no import happened in this
    /// session.
    pub fn imported_keys(&self) -> (result: Option<&Vec<Vec<u8>>>)
        ensures
            result is Some <==> self.staged() is Some,
            result matches Some(v) ==> self.staged() == Some(views_of(v@)),
    {
        self.imported_keys.as_ref()
    }

    /// The backing file's name, as given at open time.
    pub fn file_name(&self) -> (name: &String)
        ensures
            name@ == self.file_name_spec(),
    {
        &self.file_name
    }

    /// Ends the session. In read-only mode, or when nothing changed, nothing
    /// is written and the store is untouched. Otherwise the bytes to persist
    /// are returned — the staged keys followed by the resident keys — the
    /// staged slot is cleared and the dirty flag reset; the caller must write
    /// the bytes to a temporary file and atomically rename it over the
    /// backing file.
    pub fn close(&mut self) -> (payload: Option<Vec<u8>>)
        requires
            db_wf_of(old(self).staged(), old(self).resident()),
        ensures
            db_wf_of(final(self).staged(), final(self).resident()),
            payload is None <==> close_payload_of(
                old(self).mode_spec(),
                old(self).dirty(),
                old(self).staged(),
                old(self).resident(),
            ) is None,
            payload matches Some(b) ==> Some(b@) == close_payload_of(
                old(self).mode_spec(),
                old(self).dirty(),
                old(self).staged(),
                old(self).resident(),
            ),
            payload is None ==> *final(self) == *old(self),
            payload is Some ==> final(self).staged() is None && final(self).resident() == old(
                self,
            ).resident() && !final(self).dirty(),
            final(self).mode_spec() == old(self).mode_spec(),
            final(self).file_name_spec() == old(self).file_name_spec(),
    {
        if self.mode == DbMode::Read || !self.modified {
            return None;
        }
        let ghost staged0 = self.staged();
        let mut bytes: Vec<u8> = Vec::new();
        let staged = self.imported_keys.take();
        match staged {
            Some(imported) => {
                append_keys(&mut bytes, &imported);
                proof {
                    assert(staged0 == Some(views_of(imported@)));
                    assert(bytes@ =~= concat_bytes(available_of(staged0, Seq::empty())));
                }
            },
            None => {
                proof {
                    assert(bytes@ =~= concat_bytes(available_of(staged0, Seq::empty())));
                }
            },
        }
        append_keys(&mut bytes, &self.keys);
        self.modified = false;
        proof {
            lemma_concat_bytes_app(available_of(staged0, Seq::empty()), self.resident());
            assert(available_of(staged0, Seq::empty()) + self.resident() =~= available_of(
                staged0,
                self.resident(),
            ));
            assert(bytes@ =~= concat_bytes(available_of(staged0, self.resident())));
        }
        Some(bytes)
    }
}

impl DbInterface for SimpleFileDb {
    closed spec fn resident(&self) -> Seq<Seq<u8>> {
        views_of(self.keys@)
    }

    closed spec fn staged(&self) -> Option<Seq<Seq<u8>>> {
        match self.imported_keys {
            Some(v) => Some(views_of(v@)),
            None => None,
        }
    }

    closed spec fn dirty(&self) -> bool {
        self.modified
    }

    fn add_entropy<I: OTPImporter>(&mut self, importer: &I) -> (absorbed: usize) {
        let data = importer.entropy_data();
        proof {
            lemma_remainder_lower(data@.len() as int, DEFAULT_KEY_SIZE as int);
        }
        let entries = data.len() / DEFAULT_KEY_SIZE;
        let mut i: usize = 0;
        while i < entries
            invariant
                data@ == importer.data_view(),
                entries == data@.len() / (DEFAULT_KEY_SIZE as nat),
                entries * DEFAULT_KEY_SIZE <= data@.len(),
                data@.len() <= usize::MAX,
                i <= entries,
                self.resident() == old(self).resident(),
                self.mode_spec() == old(self).mode_spec(),
                self.file_name_spec() == old(self).file_name_spec(),
                db_wf_of(self.staged(), self.resident()),
                i == 0 ==> self.staged() == old(self).staged() && self.dirty() == old(
                    self,
                ).dirty(),
                i > 0 ==> (self.staged() matches Some(s) && s =~= available_of(
                    old(self).staged(),
                    Seq::empty(),
                ) + records_of(data@).take(i as int) && self.dirty()),
            decreases entries - i,
        {
            proof {
                assert(i * DEFAULT_KEY_SIZE + DEFAULT_KEY_SIZE == (i + 1) * DEFAULT_KEY_SIZE
                    && (i + 1) * DEFAULT_KEY_SIZE <= entries * DEFAULT_KEY_SIZE) by (
                nonlinear_arith)
                    requires
                        i < entries,
                ;
            }
            let start = i * DEFAULT_KEY_SIZE;
            let key = slice_to_vec(
                slice_subrange(data.as_slice(), start, start + DEFAULT_KEY_SIZE),
            );
            proof {
                assert(key@ == records_of(data@)[i as int]);
            }
            let ghost staged_pre = self.staged();
            if self.imported_keys.is_some() {
                let mut imported = self.imported_keys.take().unwrap();
                let ghost imported0 = imported@;
                imported.push(key);
                self.imported_keys = Some(imported);
                proof {
                    lemma_views_of_push(imported0, key);
                    assert(self.staged().unwrap() == staged_pre.unwrap().push(key@));
                }
            } else {
                let mut fresh: Vec<Vec<u8>> = Vec::new();
                fresh.push(key);
                self.imported_keys = Some(fresh);
                proof {
                    lemma_views_of_push(Seq::empty(), key);
                    assert(views_of(Seq::<Vec<u8>>::empty()) =~= Seq::<Seq<u8>>::empty());
                    assert(self.staged().unwrap() == views_of(Seq::<Vec<u8>>::empty().push(key)));
                }
            }
            self.modified = true;
            proof {
                assert(records_of(data@).len() == entries);
                let sofar = available_of(old(self).staged(), Seq::empty()) + records_of(
                    data@,
                ).take(i as int);
                match staged_pre {
                    Some(s0) => {
                        assert(s0 =~= sofar);
                    },
                    None => {
                        assert(Seq::<Seq<u8>>::empty() =~= sofar);
                    },
                }
                assert(self.staged().unwrap() =~= sofar.push(records_of(data@)[i as int]));
                assert(sofar.push(records_of(data@)[i as int]) =~= available_of(
                    old(self).staged(),
                    Seq::empty(),
                ) + records_of(data@).take(i + 1));
            }
            i += 1;
        }
        proof {
            if entries > 0 {
                assert(records_of(data@).take(entries as int) =~= records_of(data@));
            }
        }
        entries * DEFAULT_KEY_SIZE
    }

    fn get_key(&mut self) -> (result: Option<Vec<u8>>) {
        let ghost avail = available_of(old(self).staged(), old(self).resident());
        let ghost keys0 = self.keys@;
        let mut result = self.keys.pop();
        if result.is_some() {
            self.modified = true;
            proof {
                assert(old(self).resident().len() > 0);
                lemma_views_of_drop_last(keys0);
                assert(self.resident() == old(self).resident().drop_last());
                assert(result.unwrap()@ == views_of(keys0).last());
                assert(avail.last() == old(self).resident().last());
                assert(available_of(self.staged(), self.resident()) =~= avail.drop_last());
                assert forall|j: int| 0 <= j < self.resident().len() implies #[trigger] self
                    .resident()[j].len() == DEFAULT_KEY_SIZE by {
                    assert(self.resident()[j] == old(self).resident()[j]);
                }
            }
        } else {
            proof {
                assert(old(self).resident().len() == 0);
            }
            if self.imported_keys.is_some() {
                let mut imported = self.imported_keys.take().unwrap();
                let ghost imported0 = imported@;
                result = imported.pop();
                self.keys = imported;
                self.modified = true;
                proof {
                    let s0 = old(self).staged().unwrap();
                    assert(s0.len() > 0);
                    assert(avail =~= s0);
                    lemma_views_of_drop_last(imported0);
                    assert(self.resident() == s0.drop_last());
                    assert(result.unwrap()@ == s0.last());
                    assert(available_of(self.staged(), self.resident()) =~= avail.drop_last());
                    assert forall|j: int| 0 <= j < self.resident().len() implies #[trigger] self
                        .resident()[j].len() == DEFAULT_KEY_SIZE by {
                        assert(self.resident()[j] == s0[j]);
                    }
                }
            } else {
                proof {
                    assert(avail.len() == 0);
                }
            }
        }
        result
    }

    fn keys(&self) -> (result: Option<&Vec<Vec<u8>>>) {
        if self.keys.is_empty() {
            None
        } else {
            Some(&self.keys)
        }
    }
}

/// Law: key exhaustion is monotonic. When the keys on offer are pairwise
/// distinct, the key `get_key` hands out — the last of the available
/// sequence — is gone from what remains, and stays gone after the remaining
/// keys are committed to the backing file and loaded again.
pub proof fn lemma_key_exhaustion_monotonic(avail: Seq<Seq<u8>>)
    requires
        avail.len() > 0,
        all_keys_sized(avail),
        forall|i: int, j: int|
            0 <= i < avail.len() && 0 <= j < avail.len() && i != j ==> avail[i] != avail[j],
    ensures
        !avail.drop_last().contains(avail.last()),
        records_of(concat_bytes(avail.drop_last())) == avail.drop_last(),
        !records_of(concat_bytes(avail.drop_last())).contains(avail.last()),
{
    let rest = avail.drop_last();
    assert forall|i: int| 0 <= i < rest.len() implies #[trigger] rest[i] != avail.last() by {
        assert(avail[i] == rest[i]);
        assert(avail[avail.len() - 1] == avail.last());
    }
    assert(all_keys_sized(rest)) by {
        assert forall|i: int| 0 <= i < rest.len() implies #[trigger] rest[i].len()
            == DEFAULT_KEY_SIZE by {
            assert(avail[i].len() == DEFAULT_KEY_SIZE);
        }
    }
    lemma_records_concat_roundtrip(rest);
}

/// Law: closing a store that was opened and then neither consumed from nor
/// imported into writes nothing, so the backing file stays byte-for-byte as
/// it was; and had the unchanged pools been flushed anyway, a file of whole
/// records would have been reproduced exactly.
pub proof fn lemma_close_after_open_untouched(mode: DbMode, contents: Seq<u8>)
    requires
        contents.len() % (DEFAULT_KEY_SIZE as nat) == 0,
    ensures
        close_payload_of(mode, false, None, records_of(contents)) is None,
        concat_bytes(available_of(None, records_of(contents))) == contents,
{
    let k = DEFAULT_KEY_SIZE as int;
    let count = contents.len() / (DEFAULT_KEY_SIZE as nat);
    lemma_fundamental_div_mod(contents.len() as int, k);
    lemma_concat_records_take(contents, count as int);
    assert(count as int * k == contents.len());
    assert(records_of(contents).take(count as int) =~= records_of(contents));
    assert(available_of(None, records_of(contents)) =~= records_of(contents));
    assert(contents.take(contents.len() as int) =~= contents);
}

} // verus!
