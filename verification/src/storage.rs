//! Per-source durable storage: the public content (the record set, which is
//! versioned and human-diffable) and the private refresh metadata (the last
//! successful refresh time, never versioned). This module owns what the
//! files hold; reading and writing them, and the atomic rename protocol,
//! are the calling process's part.
use vstd::prelude::*;
use crate::codec::dec_entries;
use crate::codec::dec_private;
use crate::codec::enc_entries;
use crate::codec::enc_private;
use crate::codec::encode_entries;
use crate::codec::encode_private;
use crate::codec::lemma_dec_entries_round;
use crate::codec::lemma_dec_private_round;
use crate::codec::matches_at;
use crate::codec::parse_entries;
use crate::codec::parse_private;
use crate::map_entry::MapEntry;
use crate::map_entry::MapEntryView;
use crate::record_set::RecordSet;

verus! {

/// A name that stays inside the storage directory: a plain file name with
/// no path separators and no directory meaning of its own.
pub open spec fn is_safe_file_name(s: Seq<char>) -> bool {
    &&& s.len() > 0
    &&& forall|k: int| 0 <= k < s.len() ==> s[k] != '/' && s[k] != '\\'
    &&& !(s.len() == 1 && s[0] == '.')
    &&& !(s.len() == 2 && s[0] == '.' && s[1] == '.')
}

/// Check that a file name is safe to join to the storage directory.
pub fn check_safe_file_name(s: &String) -> (r: bool)
    ensures
        r == is_safe_file_name(s@),
{
    let st = s.as_str();
    let n = st.unicode_len();
    if n == 0 {
        return false;
    }
    let mut i: usize = 0;
    while i < n
        invariant
            st@ == s@,
            n == st@.len(),
            i <= n,
            forall|k: int| 0 <= k < i ==> st@[k] != '/' && st@[k] != '\\',
        decreases n - i,
    {
        let c = st.get_char(i);
        if c == '/' || c == '\\' {
            proof {
                assert(s@[i as int] == '/' || s@[i as int] == '\\');
            }
            return false;
        }
        i = i + 1;
    }
    if n == 1 && st.get_char(0) == '.' {
        return false;
    }
    if n == 2 && st.get_char(0) == '.' && st.get_char(1) == '.' {
        return false;
    }
    true
}

/// Why a storage operation was refused.
#[derive(Debug)]
pub enum StorageError {
    /// The slot's file name could escape the storage directory.
    UnsafeFileName,
    /// The public content file was not there to read.
    MissingPublicFile,
    /// The public content file did not hold a well-formed record list.
    MalformedPublicFile,
}

/// The versioned half: the complete record set of the last successful
/// fetch.
#[derive(Debug)]
pub struct StoredDataPublic {
    pub entries: RecordSet,
}

/// The operational half: when this source last refreshed, in TAI
/// nanoseconds; never versioned.
#[derive(Debug)]
pub struct StoredDataPrivate {
    pub last_updated: Option<u64>,
}

#[derive(Debug)]
pub struct StoredData {
    pub public: StoredDataPublic,
    pub private: StoredDataPrivate,
}

/// One source's storage slot: its in-memory data and the file name its
/// content lives under.
#[derive(Debug)]
pub struct Storage {
    pub data: StoredData,
    pub storage_file_name: String,
}

/// The whole record list a text holds, if the text is exactly one
/// well-formed record list.
pub open spec fn dec_entries_full(s: Seq<char>) -> Option<Seq<MapEntryView>> {
    match dec_entries(s, 0) {
        Some((l, j)) => if j == s.len() {
            Some(l)
        } else {
            None
        },
        None => None,
    }
}

/// The refresh time a text holds, if the text is exactly one well-formed
/// refresh record.
pub open spec fn dec_private_full(s: Seq<char>) -> Option<Option<u64>> {
    match dec_private(s, 0) {
        Some((o, j)) => if j == s.len() {
            Some(o)
        } else {
            None
        },
        None => None,
    }
}

/// Parse a text that should hold exactly one record list.
pub fn decode_entries_full(s: &str) -> (r: Option<Vec<MapEntry>>)
    ensures
        r is None ==> dec_entries_full(s@) is None,
        r matches Some(v) ==> dec_entries_full(s@) == Some(v.deep_view()),
{
    let n = s.unicode_len();
    match parse_entries(s, n, 0) {
        None => None,
        Some((v, j)) => if j == n {
            Some(v)
        } else {
            None
        },
    }
}

/// Parse a text that should hold exactly one refresh record.
pub fn decode_private_full(s: &str) -> (r: Option<Option<u64>>)
    ensures
        r is None ==> dec_private_full(s@) is None,
        r matches Some(o) ==> dec_private_full(s@) == Some(o),
{
    let n = s.unicode_len();
    match parse_private(s, n, 0) {
        None => None,
        Some((o, j)) => if j == n {
            Some(o)
        } else {
            None
        },
    }
}

/// Saving then loading gives the saved records back: the canonical
/// encoding of a well-formed record list is read back as exactly that
/// list, and the refresh time round-trips the same way.
pub proof fn lemma_save_load_round_trip(l: Seq<MapEntryView>, t: Option<u64>)
    ensures
        dec_entries_full(enc_entries(l)) == Some(l),
        dec_private_full(enc_private(t)) == Some(t),
{
    let s = enc_entries(l);
    assert(s.subrange(0, s.len() as int) =~= s);
    assert(matches_at(s, 0, enc_entries(l)));
    lemma_dec_entries_round(s, 0, l);
    let p = enc_private(t);
    assert(p.subrange(0, p.len() as int) =~= p);
    assert(matches_at(p, 0, enc_private(t)));
    lemma_dec_private_round(p, 0, t);
}

impl Storage {
    /// The slot's well-formedness: a safe file name and a valid record set.
    pub open spec fn inv(&self) -> bool {
        is_safe_file_name(self.file_name_spec()) && self.data.public.entries.inv()
    }

    pub open spec fn file_name_spec(&self) -> Seq<char> {
        self.storage_file_name@
    }

    /// A fresh, empty slot under the given file name. Refused exactly when
    /// the name could escape the storage directory.
    pub fn new(storage_file_name: String) -> (r: Result<Self, StorageError>)
        ensures
            r is Ok <==> is_safe_file_name(storage_file_name@),
            r matches Ok(s) ==> s.inv() && s.file_name_spec() == storage_file_name@
                && s.data.public.entries@ == Seq::<MapEntryView>::empty()
                && s.data.private.last_updated is None,
    {
        if !check_safe_file_name(&storage_file_name) {
            return Err(StorageError::UnsafeFileName);
        }
        Ok(
            Storage {
                data: StoredData {
                    public: StoredDataPublic { entries: RecordSet::new() },
                    private: StoredDataPrivate { last_updated: None },
                },
                storage_file_name,
            },
        )
    }

    /// The file name the public content lives under.
    pub fn get_storage_file(&self) -> (r: &String)
        ensures
            r@ == self.file_name_spec(),
    {
        &self.storage_file_name
    }

    /// The file name the private metadata lives under.
    pub fn private_file_name(&self) -> (r: String)
        ensures
            r@ == self.file_name_spec() + ".private"@,
    {
        let mut r = self.storage_file_name.clone();
        r.append(".private");
        r
    }

    /// The scratch name a file is written under before the atomic rename.
    pub fn temp_file_name(&self) -> (r: String)
        ensures
            r@ == self.file_name_spec() + ".tmp"@,
    {
        let mut r = self.storage_file_name.clone();
        r.append(".tmp");
        r
    }

    /// Take in what was read from the two files. A missing or malformed
    /// public file is an error and changes nothing, so the slot keeps its
    /// empty default. A missing or malformed private file only resets the
    /// refresh time to "never refreshed": that costs one extra fetch, never
    /// data.
    pub fn load(&mut self, public_text: Option<&str>, private_text: Option<&str>) -> (r: Result<
        (),
        StorageError,
    >)
        requires
            old(self).inv(),
        ensures
            final(self).inv(),
            final(self).file_name_spec() == old(self).file_name_spec(),
            match public_text {
                None => r matches Err(StorageError::MissingPublicFile) && *final(self) == *old(
                    self,
                ),
                Some(t) => match dec_entries_full(t@) {
                    None => r matches Err(StorageError::MalformedPublicFile) && *final(self)
                        == *old(self),
                    Some(l) => r is Ok && (forall|x: MapEntryView|
                        final(self).data.public.entries@.contains(x) <==> l.contains(x)) && (
                    crate::record_set::strictly_sorted(l)
                        ==> final(self).data.public.entries@ == l) && final(self).data.private.last_updated == (
                    match private_text {
                        None => None::<u64>,
                        Some(p) => match dec_private_full(p@) {
                            None => None::<u64>,
                            Some(o) => o,
                        },
                    }),
                },
            },
    {
        let text = match public_text {
            None => {
                return Err(StorageError::MissingPublicFile);
            },
            Some(t) => t,
        };
        let parsed = match decode_entries_full(text) {
            None => {
                return Err(StorageError::MalformedPublicFile);
            },
            Some(v) => v,
        };
        let ghost decoded = parsed.deep_view();
        self.data.public.entries = RecordSet::from_records(parsed);
        proof {
            if crate::record_set::strictly_sorted(decoded) {
                crate::record_set::lemma_sorted_set_deterministic(
                    self.data.public.entries@,
                    decoded,
                );
            }
        }
        self.data.private.last_updated = match private_text {
            None => None,
            Some(p) => match decode_private_full(p) {
                None => None,
                Some(o) => o,
            },
        };
        Ok(())
    }

    /// The texts to persist: the public content and the private metadata,
    /// as their canonical JSON. The caller writes each to the scratch
    /// name and renames it over the target, so a crash leaves either the
    /// old file or the new one, never a torn one.
    pub fn save(&self) -> (r: (String, String))
        requires
            self.inv(),
        ensures
            r.0@ == enc_entries(self.data.public.entries@),
            r.1@ == enc_private(self.data.private.last_updated),
    {
        let entries = self.data.public.entries.entries_vec();
        let public_payload = encode_entries(&entries);
        let private_payload = encode_private(&self.data.private.last_updated);
        (public_payload, private_payload)
    }
}

} // verus!
