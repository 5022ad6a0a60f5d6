//! The encoding is well-formed UTF-8.

use vstd::prelude::*;
use vstd::utf8::*;
use crate::codec::place::lemma_escaped_concat;
use crate::codec::{
    encode_items, encode_list, encode_owner, encode_owner_field, encode_record, encode_records,
    encode_text, escaped, word, RecordModel, BACKSLASH, CLOSE_LIST, COMMA, OPEN_LIST,
    QUOTE,
};

verus! {

/// A byte below 128 is well-formed UTF-8 by itself.
proof fn lemma_ascii_utf8(b: u8)
    requires
        b < 0x80,
    ensures
        valid_utf8(seq![b]),
{
    let bytes = seq![b];
    assert((b & 0x7F) <= 0x7F) by (bit_vector);
    assert(valid_first_scalar(bytes));
    assert(pop_first_scalar(bytes) =~= Seq::<u8>::empty());
    assert(valid_utf8(pop_first_scalar(bytes)));
}

/// Bytes that hold neither a quote nor a backslash are their own escaped
/// form.
proof fn lemma_escaped_plain(raw: Seq<u8>)
    requires
        forall|i: int| 0 <= i < raw.len() ==> raw[i] != QUOTE && raw[i] != BACKSLASH,
    ensures
        escaped(raw) == raw,
    decreases raw.len(),
{
    if raw.len() > 0 {
        lemma_escaped_plain(raw.skip(1));
        assert(raw =~= seq![raw[0]] + raw.skip(1));
    }
}

/// Escaping keeps UTF-8 well-formed.
proof fn lemma_escaped_utf8(raw: Seq<u8>)
    requires
        valid_utf8(raw),
    ensures
        valid_utf8(escaped(raw)),
    decreases raw.len(),
{
    if raw.len() > 0 {
        let head = take_first_scalar(raw);
        let tail = pop_first_scalar(raw);
        assert(raw =~= head + tail);
        lemma_escaped_concat(head, tail);
        lemma_escaped_utf8(tail);
        if is_leading_byte_width_1(raw[0]) {
            assert(head =~= seq![raw[0]]);
            assert(escaped(head.skip(1)) =~= Seq::<u8>::empty());
            lemma_ascii_utf8(raw[0]);
            lemma_ascii_utf8(BACKSLASH);
            valid_utf8_concat(seq![BACKSLASH], seq![raw[0]]);
            assert(escaped(head) =~= if raw[0] == QUOTE || raw[0] == BACKSLASH {
                seq![BACKSLASH] + seq![raw[0]]
            } else {
                seq![raw[0]]
            });
        } else {
            lemma_escaped_plain(head);
            assert(valid_first_scalar(head));
            assert(pop_first_scalar(head) =~= Seq::<u8>::empty());
            assert(valid_utf8(pop_first_scalar(head)));
            assert(valid_utf8(head));
        }
        assert(valid_utf8(escaped(head)));
        valid_utf8_concat(escaped(head), escaped(tail));
    }
}

/// The encoding of a text is well-formed UTF-8.
proof fn lemma_text_utf8(text: Seq<char>)
    ensures
        valid_utf8(encode_text(text)),
{
    encode_utf8_valid_utf8(text);
    lemma_escaped_utf8(encode_utf8(text));
    lemma_ascii_utf8(QUOTE);
    valid_utf8_concat(seq![QUOTE], escaped(encode_utf8(text)));
    valid_utf8_concat(seq![QUOTE] + escaped(encode_utf8(text)), seq![QUOTE]);
}

/// The encoding of a record is well-formed UTF-8.
proof fn lemma_record_utf8(record: RecordModel)
    ensures
        valid_utf8(encode_record(record)),
{
    let a = word("(name:");
    let b = encode_text(record.name);
    let c = word(",due:");
    let d = encode_text(record.due);
    let e = encode_owner_field(record.owner);
    let g = word(")");
    encode_utf8_valid_utf8("(name:"@);
    encode_utf8_valid_utf8(",due:"@);
    encode_utf8_valid_utf8(",owner:"@);
    encode_utf8_valid_utf8("Linus"@);
    encode_utf8_valid_utf8("Johannes"@);
    encode_utf8_valid_utf8(")"@);
    lemma_text_utf8(record.name);
    lemma_text_utf8(record.due);
    match record.owner {
        Some(owner) => {
            valid_utf8_concat(word(",owner:"), encode_owner(owner));
        },
        None => {},
    }
    valid_utf8_concat(a, b);
    valid_utf8_concat(a + b, c);
    valid_utf8_concat(a + b + c, d);
    valid_utf8_concat(a + b + c + d, e);
    valid_utf8_concat(a + b + c + d + e, g);
}

/// The encodings of records in a row are well-formed UTF-8.
proof fn lemma_items_utf8(records: Seq<RecordModel>)
    ensures
        valid_utf8(encode_items(records)),
    decreases records.len(),
{
    if records.len() > 0 {
        lemma_ascii_utf8(COMMA);
        lemma_record_utf8(records[0]);
        lemma_items_utf8(records.skip(1));
        valid_utf8_concat(seq![COMMA], encode_record(records[0]));
        valid_utf8_concat(
            seq![COMMA] + encode_record(records[0]),
            encode_items(records.skip(1)),
        );
    }
}

/// The bytes that hold records are well-formed UTF-8.
pub(crate) proof fn lemma_records_utf8(records: Seq<RecordModel>)
    ensures
        valid_utf8(encode_records(records)),
{
    lemma_ascii_utf8(OPEN_LIST);
    lemma_ascii_utf8(CLOSE_LIST);
    encode_utf8_valid_utf8("(chores:"@);
    encode_utf8_valid_utf8(")"@);
    if records.len() == 0 {
        valid_utf8_concat(seq![OPEN_LIST], seq![CLOSE_LIST]);
        assert(encode_list(records) =~= seq![OPEN_LIST] + seq![CLOSE_LIST]);
    } else {
        let first = encode_record(records[0]);
        let rest = encode_items(records.skip(1));
        lemma_record_utf8(records[0]);
        lemma_items_utf8(records.skip(1));
        valid_utf8_concat(seq![OPEN_LIST], first);
        valid_utf8_concat(seq![OPEN_LIST] + first, rest);
        valid_utf8_concat(seq![OPEN_LIST] + first + rest, seq![CLOSE_LIST]);
    }
    valid_utf8_concat(word("(chores:"), encode_list(records));
    valid_utf8_concat(word("(chores:") + encode_list(records), word(")"));
}

} // verus!
