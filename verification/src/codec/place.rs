//! Where the parts of an encoding stand in the bytes that hold it.

use vstd::prelude::*;
use vstd::utf8::*;
use crate::codec::{
    encode_items, encode_list, encode_owner, encode_owner_field, encode_record, encode_records,
    encode_text, escaped, quoted, word, RecordModel, BACKSLASH, CLOSE_LIST, OPEN_LIST, QUOTE,
};

verus! {

/// Whether the bytes `part` stand in `input` from position `at` on.
pub(crate) open spec fn occurs_at(input: Seq<u8>, at: int, part: Seq<u8>) -> bool {
    &&& 0 <= at
    &&& at + part.len() <= input.len()
    &&& input.subrange(at, at + part.len()) == part
}

/// Two parts stand one after the other exactly where their concatenation
/// stands.
pub(crate) proof fn lemma_occurs_concat(input: Seq<u8>, at: int, a: Seq<u8>, b: Seq<u8>)
    ensures
        occurs_at(input, at, a + b) <==> occurs_at(input, at, a) && occurs_at(
            input,
            at + a.len(),
            b,
        ),
{
    if 0 <= at && at + a.len() + b.len() <= input.len() {
        let whole = input.subrange(at, at + (a + b).len());
        let left = input.subrange(at, at + a.len());
        let right = input.subrange(at + a.len(), at + a.len() + b.len());
        assert(whole =~= left + right);
        if whole == a + b {
            assert(left =~= (a + b).subrange(0, a.len() as int));
            assert(right =~= (a + b).subrange(a.len() as int, (a + b).len() as int));
            assert(left =~= a);
            assert(right =~= b);
        }
    }
}

/// Bytes are an encoding exactly where the encoding stands at their start and
/// ends with them.
pub(crate) proof fn lemma_whole(input: Seq<u8>, part: Seq<u8>)
    ensures
        input == part <==> occurs_at(input, 0, part) && part.len() == input.len(),
{
    if occurs_at(input, 0, part) && part.len() == input.len() {
        assert(input =~= input.subrange(0, input.len() as int));
    }
    if input == part {
        assert(input.subrange(0, input.len() as int) =~= part);
    }
}

/// What the proofs need to know of the words of the encoding: the one byte
/// of the closing parenthesis, and the first byte of each word that is read
/// where something else could stand.
pub(crate) proof fn lemma_words()
    ensures
        word(")") == seq![41u8],
        word("(name:").len() > 0 && word("(name:")[0] == 40,
        word(",owner:").len() > 0 && word(",owner:")[0] == 44,
        word("Linus").len() > 0 && word("Linus")[0] == 76,
        word("Johannes").len() > 0 && word("Johannes")[0] == 74,
{
    reveal_strlit(")");
    reveal_strlit("(name:");
    reveal_strlit(",owner:");
    reveal_strlit("Linus");
    reveal_strlit("Johannes");
    is_ascii_chars_encode_utf8(")"@);
    is_ascii_chars_encode_utf8("(name:"@);
    is_ascii_chars_encode_utf8(",owner:"@);
    is_ascii_chars_encode_utf8("Linus"@);
    is_ascii_chars_encode_utf8("Johannes"@);
    assert(word(")") =~= seq![41u8]);
}

/// Escaping goes through a concatenation.
pub(crate) proof fn lemma_escaped_concat(a: Seq<u8>, b: Seq<u8>)
    ensures
        escaped(a + b) == escaped(a) + escaped(b),
    decreases a.len(),
{
    if a.len() == 0 {
        assert(a + b =~= b);
        assert(escaped(a) + escaped(b) =~= escaped(b));
    } else {
        assert((a + b).skip(1) =~= a.skip(1) + b);
        lemma_escaped_concat(a.skip(1), b);
        if a[0] == QUOTE || a[0] == BACKSLASH {
            assert(escaped(a + b) =~= seq![BACKSLASH, a[0]] + (escaped(a.skip(1)) + escaped(b)));
            assert(escaped(a) + escaped(b) =~= seq![BACKSLASH, a[0]] + (escaped(a.skip(1))
                + escaped(b)));
        } else {
            assert(escaped(a + b) =~= seq![a[0]] + (escaped(a.skip(1)) + escaped(b)));
            assert(escaped(a) + escaped(b) =~= seq![a[0]] + (escaped(a.skip(1)) + escaped(b)));
        }
    }
}

/// The escaped bytes of a text and the quote that closes it.
pub(crate) open spec fn closed(raw: Seq<u8>) -> Seq<u8> {
    escaped(raw) + seq![QUOTE]
}

/// A quoted text stands at a position exactly where a quote stands there and
/// the closed text behind it.
pub(crate) proof fn lemma_text_parts(input: Seq<u8>, at: int, raw: Seq<u8>)
    ensures
        occurs_at(input, at, quoted(raw)) <==> occurs_at(input, at, seq![QUOTE]) && occurs_at(
            input,
            at + 1,
            closed(raw),
        ),
{
    assert(quoted(raw) =~= seq![QUOTE] + closed(raw));
    lemma_occurs_concat(input, at, seq![QUOTE], closed(raw));
}

/// Where the parts of an encoded record stand when the record stands at
/// `at`.
pub(crate) open spec fn record_parts(input: Seq<u8>, at: int, record: RecordModel) -> bool {
    let name_at = at + word("(name:").len();
    let due_key_at = name_at + encode_text(record.name).len();
    let due_at = due_key_at + word(",due:").len();
    let owner_key_at = due_at + encode_text(record.due).len();
    let end_at = owner_key_at + encode_owner_field(record.owner).len();
    &&& occurs_at(input, at, word("(name:"))
    &&& occurs_at(input, name_at, encode_text(record.name))
    &&& occurs_at(input, due_key_at, word(",due:"))
    &&& occurs_at(input, due_at, encode_text(record.due))
    &&& match record.owner {
        Some(owner) => {
            &&& occurs_at(input, owner_key_at, word(",owner:"))
            &&& occurs_at(input, owner_key_at + word(",owner:").len(), encode_owner(owner))
        },
        None => true,
    }
    &&& occurs_at(input, end_at, word(")"))
    &&& encode_record(record).len() == end_at + word(")").len() - at
}

/// An encoded record stands at a position exactly where its parts stand one
/// after the other.
pub(crate) proof fn lemma_record_parts(input: Seq<u8>, at: int, record: RecordModel)
    ensures
        occurs_at(input, at, encode_record(record)) <==> record_parts(input, at, record),
{
    let a = word("(name:");
    let b = encode_text(record.name);
    let c = word(",due:");
    let d = encode_text(record.due);
    let e = encode_owner_field(record.owner);
    let g = word(")");
    let owner_key_at = at + (a + b + c + d).len();
    lemma_occurs_concat(input, at, a + b + c + d + e, g);
    lemma_occurs_concat(input, at, a + b + c + d, e);
    lemma_occurs_concat(input, at, a + b + c, d);
    lemma_occurs_concat(input, at, a + b, c);
    lemma_occurs_concat(input, at, a, b);
    match record.owner {
        Some(owner) => {
            lemma_occurs_concat(input, owner_key_at, word(",owner:"), encode_owner(owner));
        },
        None => {
            if 0 <= owner_key_at <= input.len() {
                assert(input.subrange(owner_key_at, owner_key_at) =~= e);
            }
        },
    }
}

/// The records that follow the first of a list, and the bracket that closes
/// the list.
pub(crate) open spec fn closed_items(records: Seq<RecordModel>) -> Seq<u8> {
    encode_items(records) + seq![CLOSE_LIST]
}

/// Where the parts of an encoded list stand when the list stands at `at`.
pub(crate) open spec fn list_parts(input: Seq<u8>, at: int, records: Seq<RecordModel>) -> bool {
    &&& occurs_at(input, at, seq![OPEN_LIST])
    &&& if records.len() == 0 {
        occurs_at(input, at + 1, seq![CLOSE_LIST])
    } else {
        &&& occurs_at(input, at + 1, encode_record(records[0]))
        &&& occurs_at(
            input,
            at + 1 + encode_record(records[0]).len(),
            closed_items(records.skip(1)),
        )
    }
}

/// An encoded list stands at a position exactly where its parts stand one
/// after the other.
pub(crate) proof fn lemma_list_parts(input: Seq<u8>, at: int, records: Seq<RecordModel>)
    ensures
        occurs_at(input, at, encode_list(records)) <==> list_parts(input, at, records),
        encode_list(records).len() == if records.len() == 0 {
            2
        } else {
            1 + encode_record(records[0]).len() + closed_items(records.skip(1)).len()
        },
{
    lemma_words();
    if records.len() == 0 {
        assert(encode_list(records) =~= seq![OPEN_LIST] + seq![CLOSE_LIST]);
        lemma_occurs_concat(input, at, seq![OPEN_LIST], seq![CLOSE_LIST]);
    } else {
        let first = encode_record(records[0]);
        let rest = closed_items(records.skip(1));
        assert(encode_list(records) =~= seq![OPEN_LIST] + (first + rest));
        lemma_occurs_concat(input, at, seq![OPEN_LIST], first + rest);
        lemma_occurs_concat(input, at + 1, first, rest);
    }
}

/// Where the parts of an run of records stand when they stand at `at`.
pub(crate) open spec fn records_parts(input: Seq<u8>, at: int, records: Seq<RecordModel>) -> bool {
    let list_at = at + word("(chores:").len();
    let end_at = list_at + encode_list(records).len();
    &&& occurs_at(input, at, word("(chores:"))
    &&& occurs_at(input, list_at, encode_list(records))
    &&& occurs_at(input, end_at, word(")"))
    &&& encode_records(records).len() == end_at + 1 - at
}

/// An run of records stands at a position exactly where its parts stand one
/// after the other.
pub(crate) proof fn lemma_records_parts(input: Seq<u8>, at: int, records: Seq<RecordModel>)
    ensures
        occurs_at(input, at, encode_records(records)) <==> records_parts(input, at, records),
{
    lemma_words();
    let a = word("(chores:");
    let b = encode_list(records);
    lemma_occurs_concat(input, at, a + b, word(")"));
    lemma_occurs_concat(input, at, a, b);
}

} // verus!
