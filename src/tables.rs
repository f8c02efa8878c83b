//! The two lookup tables and the decoder of their packed, gzip-compressed form.
use vstd::prelude::*;

verus! {

/// Entries in the table of a nine-rank suit group (base-5 index over 9 counts).
pub const SUHAI_TABLE_SIZE: usize = 1940777;

/// Entries in the table of the seven-kind honor group (base-5 index over 7 counts).
pub const JIHAI_TABLE_SIZE: usize = 78032;

/// What gzip decompression makes of a byte stream: the decompressed bytes,
/// or `None` where the stream is not valid gzip (bad header, truncated data,
/// bad checksum). Both depend on the bytes alone.
pub uninterp spec fn gunzip(data: Seq<u8>) -> Option<Seq<u8>>;

/// Relies on flate2::read::GzDecoder read through std::io::Read::read_to_end:
/// success or failure, and on success the whole decompressed stream, depend on
/// the input alone.
#[verifier::external_body]
fn decompress(data: &[u8]) -> (r: Option<Vec<u8>>)
    ensures
        match r {
            Some(v) => gunzip(data@) == Some(v@),
            None => gunzip(data@) is None,
        },
{
    let mut raw = Vec::new();
    match std::io::Read::read_to_end(&mut flate2::read::GzDecoder::new(data), &mut raw) {
        Ok(_) => Some(raw),
        Err(_) => None,
    }
}

/// Why a table could not be loaded.
#[derive(Debug, Clone, Copy, PartialEq, Eq)]
pub enum TableError {
    /// The compressed stream could not be decompressed.
    Decompress,
    /// The decoded table does not hold the expected number of entries.
    WrongLength { expected: usize, found: usize },
}

/// Slot `s` of entry `i` of a packed stream: every byte holds two 4-bit values,
/// low nibble first, and every five bytes hold one ten-slot entry.
pub open spec fn packed_slot(raw: Seq<u8>, i: int, s: int) -> u8 {
    let b = raw[5 * i + s / 2];
    if s % 2 == 0 {
        (b % 16) as u8
    } else {
        (b / 16) as u8
    }
}

pub open spec fn packed_entry(raw: Seq<u8>, i: int) -> Seq<u8> {
    Seq::new(10, |s: int| packed_slot(raw, i, s))
}

/// The entries a packed stream decodes to; trailing bytes short of an entry are ignored.
pub open spec fn decoded(raw: Seq<u8>) -> Seq<Seq<u8>> {
    Seq::new((raw.len() / 5) as nat, |i: int| packed_entry(raw, i))
}

/// Every slot of every entry is a 4-bit value.
pub open spec fn all_nibbles(tab: Seq<Seq<u8>>) -> bool {
    forall|i: int, s: int| 0 <= i < tab.len() && 0 <= s < tab[i].len() ==> #[trigger] tab[i][s] < 16
}

pub open spec fn entries_view(v: Seq<[u8; 10]>) -> Seq<Seq<u8>> {
    v.map_values(|e: [u8; 10]| e@)
}

/// The entry stored at `index`, or ten zeros where the index lies outside the table.
pub open spec fn entry_or_zero(tab: Seq<Seq<u8>>, index: int) -> Seq<u8> {
    if 0 <= index < tab.len() {
        tab[index]
    } else {
        Seq::new(10, |s: int| 0u8)
    }
}

fn low_nibble(b: u8) -> (r: u8)
    ensures
        r == b % 16,
{
    assert(b & 15 == b % 16) by (bit_vector);
    b & 15
}

fn high_nibble(b: u8) -> (r: u8)
    ensures
        r == b / 16,
{
    assert((b >> 4u8) & 15 == b / 16) by (bit_vector);
    (b >> 4) & 15
}

/// Unpacks a decompressed table and checks that it holds `length` entries.
pub fn decode_table(raw: &[u8], length: usize) -> (r: Result<Vec<[u8; 10]>, TableError>)
    ensures
        r is Ok <==> raw@.len() / 5 == length,
        match r {
            Ok(v) => entries_view(v@) == decoded(raw@) && v@.len() == length,
            Err(TableError::WrongLength { expected, found }) => expected == length && found
                == raw@.len() / 5 && found != length,
            Err(TableError::Decompress) => false,
        },
{
    let len = raw.len();
    let n = len / 5;
    let mut ret: Vec<[u8; 10]> = Vec::new();
    let mut i: usize = 0;
    while i < n
        invariant
            len == raw@.len(),
            n == raw@.len() / 5,
            i <= n,
            ret@.len() == i,
            forall|k: int| 0 <= k < i ==> #[trigger] ret@[k]@ == packed_entry(raw@, k),
        decreases n - i,
    {
        assert(5 * i + 5 <= raw@.len()) by (nonlinear_arith)
            requires
                i < n,
                n == raw@.len() / 5,
        ;
        let b = 5 * i;
        let entry: [u8; 10] = [
            low_nibble(raw[b]),
            high_nibble(raw[b]),
            low_nibble(raw[b + 1]),
            high_nibble(raw[b + 1]),
            low_nibble(raw[b + 2]),
            high_nibble(raw[b + 2]),
            low_nibble(raw[b + 3]),
            high_nibble(raw[b + 3]),
            low_nibble(raw[b + 4]),
            high_nibble(raw[b + 4]),
        ];
        assert(entry@ =~= packed_entry(raw@, i as int));
        ret.push(entry);
        i += 1;
    }
    if n != length {
        return Err(TableError::WrongLength { expected: length, found: n });
    }
    assert(entries_view(ret@) =~= decoded(raw@));
    Ok(ret)
}

/// Decompresses and unpacks one table, which must hold `length` entries.
pub fn read_table(gzipped: &[u8], length: usize) -> (r: Result<Vec<[u8; 10]>, TableError>)
    ensures
        r is Ok <==> (gunzip(gzipped@) matches Some(raw) && raw.len() / 5 == length),
        match r {
            Ok(v) => entries_view(v@) == decoded(gunzip(gzipped@)->Some_0) && v@.len() == length,
            Err(TableError::WrongLength { expected, found }) => gunzip(gzipped@) is Some
                && expected == length && found == gunzip(gzipped@)->Some_0.len() / 5 && found
                != length,
            Err(TableError::Decompress) => gunzip(gzipped@) is None,
        },
{
    match decompress(gzipped) {
        Some(raw) => decode_table(raw.as_slice(), length),
        None => Err(TableError::Decompress),
    }
}

proof fn lemma_decoded_nibbles(raw: Seq<u8>)
    ensures
        all_nibbles(decoded(raw)),
{
    assert forall|i: int, s: int|
        0 <= i < decoded(raw).len() && 0 <= s < decoded(raw)[i].len() implies #[trigger] decoded(
        raw,
    )[i][s] < 16 by {
        let b = raw[5 * i + s / 2];
        assert(b / 16 < 16);
    }
}

/// Both lookup tables, as loaded; only `ensure_init` builds one, so every
/// value of this type holds complete tables of 4-bit entries.
pub struct Tables {
    suhai: Vec<[u8; 10]>,
    jihai: Vec<[u8; 10]>,
}

impl Tables {
    /// The suit-group table.
    pub closed spec fn suit_table(&self) -> Seq<Seq<u8>> {
        entries_view(self.suhai@)
    }

    /// The honor-group table.
    pub closed spec fn honor_table(&self) -> Seq<Seq<u8>> {
        entries_view(self.jihai@)
    }

    #[verifier::type_invariant]
    spec fn complete(&self) -> bool {
        &&& self.suhai@.len() == SUHAI_TABLE_SIZE
        &&& self.jihai@.len() == JIHAI_TABLE_SIZE
        &&& all_nibbles(self.suit_table())
        &&& all_nibbles(self.honor_table())
    }

    /// The suit-group entry at `index`, or all zeros outside the table.
    pub fn suit_entry(&self, index: usize) -> (r: [u8; 10])
        ensures
            r@ == entry_or_zero(self.suit_table(), index as int),
            forall|s: int| 0 <= s < 10 ==> #[trigger] r@[s] < 16,
            self.suit_table().len() == SUHAI_TABLE_SIZE,
    {
        proof {
            use_type_invariant(self);
        }
        if index < self.suhai.len() {
            self.suhai[index]
        } else {
            let z = [0u8; 10];
            assert(z@ =~= entry_or_zero(self.suit_table(), index as int));
            z
        }
    }

    /// The honor-group entry at `index`, or all zeros outside the table.
    pub fn honor_entry(&self, index: usize) -> (r: [u8; 10])
        ensures
            r@ == entry_or_zero(self.honor_table(), index as int),
            forall|s: int| 0 <= s < 10 ==> #[trigger] r@[s] < 16,
            self.honor_table().len() == JIHAI_TABLE_SIZE,
    {
        proof {
            use_type_invariant(self);
        }
        if index < self.jihai.len() {
            self.jihai[index]
        } else {
            let z = [0u8; 10];
            assert(z@ =~= entry_or_zero(self.honor_table(), index as int));
            z
        }
    }
}

/// A compressed table decompresses and holds exactly `length` entries.
pub open spec fn table_loads(gz: Seq<u8>, length: int) -> bool {
    gunzip(gz) matches Some(raw) && raw.len() / 5 == length
}

/// Loads both tables from their compressed forms, checking their sizes.
/// The suit table is read first, so its failure is the one reported.
pub fn ensure_init(suit_gz: &[u8], honor_gz: &[u8]) -> (r: Result<Tables, TableError>)
    ensures
        r is Ok <==> (table_loads(suit_gz@, SUHAI_TABLE_SIZE as int) && table_loads(
            honor_gz@,
            JIHAI_TABLE_SIZE as int,
        )),
        match r {
            Ok(t) => {
                &&& t.suit_table() == decoded(gunzip(suit_gz@)->Some_0)
                &&& t.honor_table() == decoded(gunzip(honor_gz@)->Some_0)
                &&& t.suit_table().len() == SUHAI_TABLE_SIZE
                &&& t.honor_table().len() == JIHAI_TABLE_SIZE
            },
            Err(TableError::WrongLength { expected, found }) => (gunzip(suit_gz@) is Some
                && expected == SUHAI_TABLE_SIZE && found == gunzip(suit_gz@)->Some_0.len() / 5
                && found != SUHAI_TABLE_SIZE) || (table_loads(suit_gz@, SUHAI_TABLE_SIZE as int)
                && gunzip(honor_gz@) is Some && expected == JIHAI_TABLE_SIZE && found == gunzip(
                honor_gz@,
            )->Some_0.len() / 5 && found != JIHAI_TABLE_SIZE),
            Err(TableError::Decompress) => gunzip(suit_gz@) is None || (table_loads(
                suit_gz@,
                SUHAI_TABLE_SIZE as int,
            ) && gunzip(honor_gz@) is None),
        },
{
    let suhai = match read_table(suit_gz, SUHAI_TABLE_SIZE) {
        Ok(v) => v,
        Err(e) => return Err(e),
    };
    let jihai = match read_table(honor_gz, JIHAI_TABLE_SIZE) {
        Ok(v) => v,
        Err(e) => return Err(e),
    };
    proof {
        lemma_decoded_nibbles(gunzip(suit_gz@)->Some_0);
        lemma_decoded_nibbles(gunzip(honor_gz@)->Some_0);
    }
    Ok(Tables { suhai, jihai })
}

} // verus!
