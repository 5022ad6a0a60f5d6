//! The textual encoding of a store of chores.
//!
//! A store is written as one record with the field `chores`, a bracketed list
//! of records with the fields `name`, `due` and `owner`, in that order and
//! without white space:
//!
//! ```text
//! (chores:[(name:"Bad",due:"Tomorrow",owner:Linus),(name:"Boden",due:"Tomorrow",owner:Johannes)])
//! ```
//!
//! In full:
//!
//! ```text
//! store = "(chores:" list ")"
//! list  = "[" "]"  |  "[" chore { "," chore } "]"
//! chore = "(name:" text ",due:" text [ ",owner:" owner ] ")"
//! owner = "Linus"  |  "Johannes"
//! text  = QUOTE { plain | BACKSLASH QUOTE | BACKSLASH BACKSLASH } QUOTE
//! ```
//!
//! where `plain` is any byte but the double quote and the backslash. The
//! bytes between the quotes of a text are its UTF-8 form with a backslash put
//! before each double quote and each backslash.
//!
//! # Fields that may be missing
//!
//! The field `owner` is always written and need not be there on reading: a
//! chore that was kept before chores had owners is read with the default
//! owner, [`default_owner`](crate::chore::default_owner). The fields `name`
//! and `due` have no default: a record that lacks one of them is no chore.
//!
//! # What is read
//!
//! Only this encoding is read, byte for byte. White space between the parts,
//! a name before a parenthesis, fields in another order, a comma behind the
//! last chore, and any escape but the two above (an escaped apostrophe or
//! line feed, a character given by its number) are all refused. So what is
//! read is what this library wrote, with or without the owners: bytes that
//! another writer produced are read only where they happen to have this very
//! form.
//!
//! Every store has exactly one encoding, every byte sequence is read as at
//! most one store, and the encoding of a store is read as that store.

use vstd::prelude::*;
use vstd::utf8::*;
use crate::chore::{default_owner, views, Chore, ChoreModel, Owner};
use crate::codec::place::{lemma_records_parts, lemma_whole, lemma_words, records_parts};
use crate::codec::read::{read_chores, read_word};
use crate::codec::unique::lemma_list_unique;
use crate::codec::valid::lemma_records_utf8;
use crate::codec::write::{write_chore, write_word};

mod place;
mod read;
mod unique;
mod valid;
mod write;

verus! {

/// The double quote that opens and closes a text.
pub const QUOTE: u8 = 34;

/// The backslash that precedes a quote or a backslash inside a text.
pub const BACKSLASH: u8 = 92;

/// The bracket that opens a list.
pub const OPEN_LIST: u8 = 91;

/// The bracket that closes a list.
pub const CLOSE_LIST: u8 = 93;

/// The comma between the chores of a list.
pub const COMMA: u8 = 44;

/// A chore as it stands in the bytes: with its owner, or without one.
pub ghost struct RecordModel {
    pub name: Seq<char>,
    pub due: Seq<char>,
    pub owner: Option<Owner>,
}

/// The record that is written for a chore: all three fields.
pub open spec fn written(chore: ChoreModel) -> RecordModel {
    RecordModel { name: chore.name, due: chore.due, owner: Some(chore.owner) }
}

/// The chore that a record is read as: the default owner stands in where the
/// record has none.
pub open spec fn filled(record: RecordModel) -> ChoreModel {
    ChoreModel {
        name: record.name,
        due: record.due,
        owner: match record.owner {
            Some(owner) => owner,
            None => default_owner(),
        },
    }
}

/// The records that are written for the chores of a store.
pub open spec fn writes(chores: Seq<ChoreModel>) -> Seq<RecordModel> {
    chores.map_values(|chore: ChoreModel| written(chore))
}

/// The chores that records are read as.
pub open spec fn fills(records: Seq<RecordModel>) -> Seq<ChoreModel> {
    records.map_values(|record: RecordModel| filled(record))
}

/// The bytes of a word of the encoding.
pub open spec fn word(w: &str) -> Seq<u8> {
    encode_utf8(w@)
}

/// The bytes of a text with a backslash put before each quote and backslash.
pub open spec fn escaped(raw: Seq<u8>) -> Seq<u8>
    decreases raw.len(),
{
    if raw.len() == 0 {
        Seq::empty()
    } else if raw[0] == QUOTE || raw[0] == BACKSLASH {
        seq![BACKSLASH, raw[0]] + escaped(raw.skip(1))
    } else {
        seq![raw[0]] + escaped(raw.skip(1))
    }
}

/// The escaped bytes between two quotes.
pub open spec fn quoted(raw: Seq<u8>) -> Seq<u8> {
    seq![QUOTE] + escaped(raw) + seq![QUOTE]
}

/// The encoding of a text.
pub open spec fn encode_text(text: Seq<char>) -> Seq<u8> {
    quoted(encode_utf8(text))
}

/// The encoding of an owner: the owner's name, bare.
pub open spec fn encode_owner(owner: Owner) -> Seq<u8> {
    match owner {
        Owner::Linus => word("Linus"),
        Owner::Johannes => word("Johannes"),
    }
}

/// The field `owner` of a record: nothing where the record has no owner.
pub open spec fn encode_owner_field(owner: Option<Owner>) -> Seq<u8> {
    match owner {
        Some(owner) => word(",owner:") + encode_owner(owner),
        None => Seq::empty(),
    }
}

/// The encoding of a record: its fields between parentheses.
pub open spec fn encode_record(record: RecordModel) -> Seq<u8> {
    word("(name:") + encode_text(record.name) + word(",due:") + encode_text(record.due)
        + encode_owner_field(record.owner) + word(")")
}

/// The encoding of a chore: the record with all three fields.
pub open spec fn encode_chore(chore: ChoreModel) -> Seq<u8> {
    encode_record(written(chore))
}

/// The encodings of records in a row, a comma before each.
pub open spec fn encode_items(records: Seq<RecordModel>) -> Seq<u8>
    decreases records.len(),
{
    if records.len() == 0 {
        Seq::empty()
    } else {
        seq![COMMA] + encode_record(records[0]) + encode_items(records.skip(1))
    }
}

/// The encoding of a list of records: between brackets, commas between the
/// records.
pub open spec fn encode_list(records: Seq<RecordModel>) -> Seq<u8> {
    if records.len() == 0 {
        seq![OPEN_LIST, CLOSE_LIST]
    } else {
        seq![OPEN_LIST] + encode_record(records[0]) + encode_items(records.skip(1)) + seq![
            CLOSE_LIST,
        ]
    }
}

/// The bytes that hold the given records: a record whose one field is the
/// list of them.
pub open spec fn encode_records(records: Seq<RecordModel>) -> Seq<u8> {
    word("(chores:") + encode_list(records) + word(")")
}

/// The encoding of a store: every chore written with all three fields.
pub open spec fn encode_store(chores: Seq<ChoreModel>) -> Seq<u8> {
    encode_records(writes(chores))
}

/// Whether the bytes are read as the given store: they hold records, each
/// with or without an owner, and the store is those records with the default
/// owner filled in where one is missing.
pub open spec fn reads_as(bytes: Seq<u8>, chores: Seq<ChoreModel>) -> bool {
    exists|records: Seq<RecordModel>|
        #[trigger] encode_records(records) == bytes && fills(records) == chores
}

/// The store that the bytes are read as, if they are read as one.
pub open spec fn decoded(bytes: Seq<u8>) -> Option<Seq<ChoreModel>> {
    if exists|chores: Seq<ChoreModel>| reads_as(bytes, chores) {
        Some(choose|chores: Seq<ChoreModel>| reads_as(bytes, chores))
    } else {
        None
    }
}

/// Writes a store of chores as bytes, which are well-formed UTF-8.
pub fn encode(chores: &[Chore]) -> (bytes: Vec<u8>)
    ensures
        bytes@ == encode_store(views(chores@)),
        valid_utf8(bytes@),
{
    let ghost all = writes(views(chores@));
    let mut out: Vec<u8> = Vec::new();
    write_word(&mut out, "(chores:");
    out.push(OPEN_LIST);
    if chores.len() > 0 {
        write_chore(&mut out, &chores[0]);
        let mut i: usize = 1;
        while i < chores.len()
            invariant
                1 <= i <= chores.len(),
                all == writes(views(chores@)),
                out@ + encode_items(all.skip(i as int)) == word("(chores:") + seq![OPEN_LIST]
                    + encode_record(all[0]) + encode_items(all.skip(1)),
            decreases chores.len() - i,
        {
            let ghost before = out@;
            out.push(COMMA);
            write_chore(&mut out, &chores[i]);
            proof {
                let rest = all.skip(i as int);
                assert(rest[0] == written(chores@[i as int]@));
                assert(rest.skip(1) =~= all.skip(i + 1));
                assert(out@ + encode_items(all.skip(i + 1)) =~= before + encode_items(rest));
            }
            i += 1;
        }
        assert(encode_items(all.skip(i as int)) =~= Seq::<u8>::empty());
    }
    out.push(CLOSE_LIST);
    write_word(&mut out, ")");
    proof {
        assert(out@ =~= encode_records(all));
        lemma_records_utf8(all);
    }
    out
}

/// Reads a store of chores from bytes: the store that the bytes are read as,
/// or nothing where they are read as none.
pub fn decode(input: &[u8]) -> (found: Option<Vec<Chore>>)
    ensures
        match found {
            Some(chores) => reads_as(input@, views(chores@)),
            None => forall|cs: Seq<ChoreModel>| !reads_as(input@, cs),
        },
        decoded(input@) == match found {
            Some(chores) => Some(views(chores@)),
            None => None,
        },
{
    proof {
        lemma_words();
        assert forall|rs: Seq<RecordModel>| #[trigger]
            encode_records(rs) == input@ implies records_parts(input@, 0, rs) && encode_records(
            rs,
        ).len() == input@.len() by {
            lemma_whole(input@, encode_records(rs));
            lemma_records_parts(input@, 0, rs);
        }
    }
    let list_at = match read_word(input, 0, "(chores:") {
        Some(next) => next,
        None => { return None; },
    };
    let (chores, records, end_at) = match read_chores(input, list_at) {
        Some(found) => found,
        None => { return None; },
    };
    proof {
        assert forall|rs: Seq<RecordModel>| #[trigger]
            encode_records(rs) == input@ implies rs == records@ by {
            lemma_list_unique(input@, list_at as int, rs, records@);
        }
    }
    let next = match read_word(input, end_at, ")") {
        Some(next) => next,
        None => { return None; },
    };
    if next != input.len() {
        return None;
    }
    proof {
        lemma_records_parts(input@, 0, records@);
        lemma_whole(input@, encode_records(records@));
        assert(reads_as(input@, views(chores@)));
        lemma_reads_unique(input@, views(chores@), choose|cs: Seq<ChoreModel>| reads_as(input@, cs));
    }
    Some(chores)
}

/// No two runs of records are held by the same bytes.
pub proof fn lemma_records_unique(a: Seq<RecordModel>, b: Seq<RecordModel>)
    requires
        encode_records(a) == encode_records(b),
    ensures
        a == b,
{
    let input = encode_records(a);
    lemma_whole(input, encode_records(a));
    lemma_whole(input, encode_records(b));
    lemma_records_parts(input, 0, a);
    lemma_records_parts(input, 0, b);
    lemma_list_unique(input, word("(chores:").len() as int, a, b);
}

/// Bytes are read as one store at most.
pub proof fn lemma_reads_unique(bytes: Seq<u8>, a: Seq<ChoreModel>, b: Seq<ChoreModel>)
    requires
        reads_as(bytes, a),
        reads_as(bytes, b),
    ensures
        a == b,
{
    let ra = choose|rs: Seq<RecordModel>| #[trigger] encode_records(rs) == bytes && fills(rs) == a;
    let rb = choose|rs: Seq<RecordModel>| #[trigger] encode_records(rs) == bytes && fills(rs) == b;
    lemma_records_unique(ra, rb);
}

/// The encoding of a store is read as that store, and as no other.
pub proof fn lemma_encoding_reads(chores: Seq<ChoreModel>)
    ensures
        reads_as(encode_store(chores), chores),
        forall|other: Seq<ChoreModel>| reads_as(encode_store(chores), other) ==> other == chores,
{
    assert(fills(writes(chores)) =~= chores);
    assert(encode_records(writes(chores)) == encode_store(chores));
    assert forall|other: Seq<ChoreModel>| reads_as(encode_store(chores), other) implies other
        == chores by {
        lemma_reads_unique(encode_store(chores), other, chores);
    }
}

/// No two stores have the same encoding.
pub proof fn lemma_encoding_unique(a: Seq<ChoreModel>, b: Seq<ChoreModel>)
    requires
        encode_store(a) == encode_store(b),
    ensures
        a == b,
{
    lemma_encoding_reads(a);
    lemma_encoding_reads(b);
}

/// Reading is the inverse of writing: the encoding of a store decodes to that
/// store.
pub proof fn lemma_decoded_encoding(chores: Seq<ChoreModel>)
    ensures
        decoded(encode_store(chores)) == Some(chores),
{
    lemma_encoding_reads(chores);
}

/// What bytes decode to is what they are read as, and the only store they
/// are read as.
pub proof fn lemma_decoded_reads(bytes: Seq<u8>, chores: Seq<ChoreModel>)
    ensures
        decoded(bytes) == Some(chores) <==> reads_as(bytes, chores),
{
    if reads_as(bytes, chores) {
        lemma_reads_unique(bytes, chores, choose|cs: Seq<ChoreModel>| reads_as(bytes, cs));
    }
}

/// The encoding of a store is well-formed UTF-8.
pub proof fn lemma_encoding_utf8(chores: Seq<ChoreModel>)
    ensures
        valid_utf8(encode_store(chores)),
{
    lemma_records_utf8(writes(chores));
}

} // verus!
