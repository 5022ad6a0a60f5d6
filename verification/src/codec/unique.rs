//! No two values have encodings of which one begins the other: what stands
//! at a position can be read in one way only.

use vstd::prelude::*;
use vstd::utf8::*;
use crate::chore::Owner;
use crate::codec::place::{
    closed, closed_items, lemma_list_parts, lemma_occurs_concat, lemma_record_parts,
    lemma_text_parts, lemma_words, occurs_at,
};
use crate::codec::{
    encode_list, encode_owner, encode_record, encode_text, word, RecordModel, BACKSLASH,
    CLOSE_LIST, COMMA, QUOTE,
};

verus! {

/// What the first byte of a closed text tells of the text.
pub(crate) proof fn lemma_closed_step(input: Seq<u8>, at: int, raw: Seq<u8>)
    requires
        occurs_at(input, at, closed(raw)),
    ensures
        at < input.len(),
        input[at] == QUOTE ==> raw.len() == 0,
        input[at] == BACKSLASH ==> {
            &&& raw.len() > 0
            &&& at + 1 < input.len()
            &&& input[at + 1] == raw[0]
            &&& (raw[0] == QUOTE || raw[0] == BACKSLASH)
            &&& occurs_at(input, at + 2, closed(raw.skip(1)))
        },
        input[at] != QUOTE && input[at] != BACKSLASH ==> {
            &&& raw.len() > 0
            &&& raw[0] == input[at]
            &&& occurs_at(input, at + 1, closed(raw.skip(1)))
        },
{
    let part = closed(raw);
    assert(input.subrange(at, at + part.len())[0] == part[0]);
    if raw.len() > 0 {
        let rest = closed(raw.skip(1));
        if raw[0] == QUOTE || raw[0] == BACKSLASH {
            assert(part =~= seq![BACKSLASH, raw[0]] + rest);
            lemma_occurs_concat(input, at, seq![BACKSLASH, raw[0]], rest);
            assert(input.subrange(at, at + 2)[1] == raw[0]);
        } else {
            assert(part =~= seq![raw[0]] + rest);
            lemma_occurs_concat(input, at, seq![raw[0]], rest);
        }
    }
}

/// Two closed texts that stand at one position are the same text.
proof fn lemma_closed_unique(input: Seq<u8>, at: int, x: Seq<u8>, y: Seq<u8>)
    requires
        occurs_at(input, at, closed(x)),
        occurs_at(input, at, closed(y)),
    ensures
        x == y,
    decreases x.len(),
{
    lemma_closed_step(input, at, x);
    lemma_closed_step(input, at, y);
    if input[at] != QUOTE {
        let width: int = if input[at] == BACKSLASH { 2 } else { 1 };
        lemma_closed_unique(input, at + width, x.skip(1), y.skip(1));
        assert(x =~= seq![x[0]] + x.skip(1));
        assert(y =~= seq![y[0]] + y.skip(1));
    } else {
        assert(x =~= y);
    }
}

/// Two encoded texts that stand at one position are the same text.
pub(crate) proof fn lemma_text_unique(input: Seq<u8>, at: int, a: Seq<char>, b: Seq<char>)
    requires
        occurs_at(input, at, encode_text(a)),
        occurs_at(input, at, encode_text(b)),
    ensures
        a == b,
{
    lemma_text_parts(input, at, encode_utf8(a));
    lemma_text_parts(input, at, encode_utf8(b));
    lemma_closed_unique(input, at + 1, encode_utf8(a), encode_utf8(b));
    encode_utf8_decode_utf8(a);
    encode_utf8_decode_utf8(b);
}

/// Two encoded owners that stand at one position are the same owner.
pub(crate) proof fn lemma_owner_unique(input: Seq<u8>, at: int, a: Owner, b: Owner)
    requires
        occurs_at(input, at, encode_owner(a)),
        occurs_at(input, at, encode_owner(b)),
    ensures
        a == b,
{
    lemma_words();
    assert(input.subrange(at, at + encode_owner(a).len())[0] == encode_owner(a)[0]);
    assert(input.subrange(at, at + encode_owner(b).len())[0] == encode_owner(b)[0]);
}

/// Two encoded records that stand at one position are the same record.
pub(crate) proof fn lemma_record_unique(input: Seq<u8>, at: int, a: RecordModel, b: RecordModel)
    requires
        occurs_at(input, at, encode_record(a)),
        occurs_at(input, at, encode_record(b)),
    ensures
        a == b,
{
    lemma_words();
    lemma_record_parts(input, at, a);
    lemma_record_parts(input, at, b);
    let name_at = at + word("(name:").len();
    lemma_text_unique(input, name_at, a.name, b.name);
    let due_at = name_at + encode_text(a.name).len() + word(",due:").len();
    lemma_text_unique(input, due_at, a.due, b.due);
    let owner_key_at = due_at + encode_text(a.due).len();
    let owner_at = owner_key_at + word(",owner:").len();
    assert(input.subrange(owner_key_at, owner_key_at + 1)[0] == input[owner_key_at]);
    if a.owner is Some || b.owner is Some {
        assert(input.subrange(owner_key_at, owner_at)[0] == input[owner_key_at]);
    }
    if a.owner is Some && b.owner is Some {
        lemma_owner_unique(input, owner_at, a.owner->0, b.owner->0);
    }
}

/// What the first byte of the rest of a list tells of the rest.
pub(crate) proof fn lemma_items_step(input: Seq<u8>, at: int, records: Seq<RecordModel>)
    requires
        occurs_at(input, at, closed_items(records)),
    ensures
        at < input.len(),
        input[at] == CLOSE_LIST || input[at] == COMMA,
        input[at] == CLOSE_LIST ==> records.len() == 0,
        input[at] == COMMA ==> {
            &&& records.len() > 0
            &&& occurs_at(input, at + 1, encode_record(records[0]))
            &&& occurs_at(
                input,
                at + 1 + encode_record(records[0]).len(),
                closed_items(records.skip(1)),
            )
        },
{
    lemma_words();
    let part = closed_items(records);
    assert(input.subrange(at, at + part.len())[0] == part[0]);
    if records.len() > 0 {
        let first = encode_record(records[0]);
        let rest = closed_items(records.skip(1));
        assert(part =~= seq![COMMA] + (first + rest));
        lemma_occurs_concat(input, at, seq![COMMA], first + rest);
        lemma_occurs_concat(input, at + 1, first, rest);
    }
}

/// Two rests of a list that stand at one position are the same records.
proof fn lemma_items_unique(input: Seq<u8>, at: int, xs: Seq<RecordModel>, ys: Seq<RecordModel>)
    requires
        occurs_at(input, at, closed_items(xs)),
        occurs_at(input, at, closed_items(ys)),
    ensures
        xs == ys,
    decreases xs.len(),
{
    lemma_items_step(input, at, xs);
    lemma_items_step(input, at, ys);
    if input[at] == COMMA {
        lemma_record_unique(input, at + 1, xs[0], ys[0]);
        lemma_items_unique(input, at + 1 + encode_record(xs[0]).len(), xs.skip(1), ys.skip(1));
        assert(xs =~= seq![xs[0]] + xs.skip(1));
        assert(ys =~= seq![ys[0]] + ys.skip(1));
    } else {
        assert(xs =~= ys);
    }
}

/// Two encoded lists that stand at one position are the same records.
pub(crate) proof fn lemma_list_unique(input: Seq<u8>, at: int, xs: Seq<RecordModel>, ys: Seq<RecordModel>)
    requires
        occurs_at(input, at, encode_list(xs)),
        occurs_at(input, at, encode_list(ys)),
    ensures
        xs == ys,
{
    lemma_words();
    lemma_list_parts(input, at, xs);
    lemma_list_parts(input, at, ys);
    if xs.len() > 0 {
        lemma_record_parts(input, at + 1, xs[0]);
        assert(input.subrange(at + 1, at + 1 + word("(name:").len())[0] == word("(name:")[0]);
    }
    if ys.len() > 0 {
        lemma_record_parts(input, at + 1, ys[0]);
        assert(input.subrange(at + 1, at + 1 + word("(name:").len())[0] == word("(name:")[0]);
    }
    if xs.len() > 0 && ys.len() > 0 {
        lemma_record_unique(input, at + 1, xs[0], ys[0]);
        lemma_items_unique(input, at + 1 + encode_record(xs[0]).len(), xs.skip(1), ys.skip(1));
        assert(xs =~= seq![xs[0]] + xs.skip(1));
        assert(ys =~= seq![ys[0]] + ys.skip(1));
    } else {
        assert(input.subrange(at + 1, at + 2)[0] == input[at + 1]);
        assert(xs =~= ys);
    }
}

} // verus!
