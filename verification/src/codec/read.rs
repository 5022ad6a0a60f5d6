//! Reading the encoding, part by part.
//!
//! Each reader looks at one position of the input. It returns what stands
//! there and the position behind it, or nothing if no value of its kind has an
//! encoding that stands there.

use vstd::prelude::*;
use vstd::utf8::*;
use crate::chore::{views, Chore, Owner};
use crate::codec::place::{
    closed, closed_items, lemma_escaped_concat, lemma_list_parts, lemma_occurs_concat,
    lemma_record_parts, lemma_text_parts, lemma_words, list_parts, occurs_at, record_parts,
};
use crate::codec::unique::{
    lemma_closed_step, lemma_items_step, lemma_owner_unique, lemma_record_unique,
    lemma_text_unique,
};
use crate::codec::{
    encode_items, encode_list, encode_owner, encode_record, encode_text, escaped, filled, fills,
    quoted, word, RecordModel, BACKSLASH, CLOSE_LIST, COMMA, OPEN_LIST, QUOTE,
};

verus! {

/// Turns bytes into a text with `String::from_utf8`, which is not verified
/// here. It is taken to succeed on exactly the byte sequences that are
/// well-formed UTF-8, and then to give the text whose UTF-8 form is those
/// bytes.
#[verifier::external_body]
fn text_of_utf8(raw: Vec<u8>) -> (text: Option<String>)
    ensures
        text is Some <==> valid_utf8(raw@),
        text matches Some(t) ==> encode_utf8(t@) == raw@,
{
    match String::from_utf8(raw) {
        Ok(t) => Some(t),
        Err(_) => None,
    }
}

/// Reads a word at a position.
pub(crate) fn read_word(input: &[u8], at: usize, w: &str) -> (end: Option<usize>)
    requires
        at <= input.len(),
    ensures
        match end {
            Some(next) => next == at + word(w).len() && occurs_at(input@, at as int, word(w)),
            None => !occurs_at(input@, at as int, word(w)),
        },
{
    let bytes = w.as_bytes();
    if bytes.len() > input.len() - at {
        return None;
    }
    let mut i: usize = 0;
    while i < bytes.len()
        invariant
            i <= bytes.len(),
            at + bytes.len() <= input.len(),
            bytes@ == word(w),
            input@.subrange(at as int, at + i) == bytes@.take(i as int),
        decreases bytes.len() - i,
    {
        if input[at + i] != bytes[i] {
            assert(input@.subrange(at as int, at + bytes.len())[i as int] != bytes@[i as int]);
            return None;
        }
        i += 1;
        assert(input@.subrange(at as int, at + i) =~= bytes@.take(i as int));
    }
    assert(bytes@.take(i as int) =~= bytes@);
    Some(at + bytes.len())
}

/// The state of reading a closed text that begins at `start`, when the bytes
/// up to `at` have been read as `seen`: those bytes are `seen` escaped, and
/// every closed text that stands at `start` begins with `seen` and goes on at
/// `at`.
spec fn scanned(input: Seq<u8>, start: int, at: int, seen: Seq<u8>) -> bool {
    &&& 0 <= start <= at <= input.len()
    &&& input.subrange(start, at) == escaped(seen)
    &&& forall|x: Seq<u8>| #[trigger]
        occurs_at(input, start, closed(x)) ==> seen.is_prefix_of(x) && occurs_at(
            input,
            at,
            closed(x.skip(seen.len() as int)),
        )
}

/// Nothing has been read yet.
proof fn lemma_scan_start(input: Seq<u8>, start: int)
    requires
        0 <= start <= input.len(),
    ensures
        scanned(input, start, start, Seq::empty()),
{
    assert(input.subrange(start, start) =~= escaped(Seq::empty()));
    assert forall|x: Seq<u8>| #[trigger] occurs_at(input, start, closed(x)) implies Seq::<
        u8,
    >::empty().is_prefix_of(x) && occurs_at(input, start, closed(x.skip(0))) by {
        assert(x.skip(0) =~= x);
    }
}

/// One byte of a text has been read, from `width` bytes of input.
proof fn lemma_scan_step(input: Seq<u8>, start: int, at: int, seen: Seq<u8>, width: int)
    requires
        scanned(input, start, at, seen),
        at < input.len(),
        input[at] != QUOTE,
        if input[at] == BACKSLASH {
            width == 2 && at + 1 < input.len() && (input[at + 1] == QUOTE || input[at + 1]
                == BACKSLASH)
        } else {
            width == 1
        },
    ensures
        scanned(input, start, at + width, seen.push(input[at + width - 1])),
{
    let kept = input[at + width - 1];
    let more = seen.push(kept);
    lemma_escaped_concat(seen, seq![kept]);
    assert(more =~= seen + seq![kept]);
    assert(escaped(seq![kept].skip(1)) =~= Seq::<u8>::empty());
    assert(escaped(seq![kept]) =~= input.subrange(at, at + width));
    assert(input.subrange(start, at + width) =~= input.subrange(start, at) + input.subrange(
        at,
        at + width,
    ));
    assert forall|x: Seq<u8>| #[trigger] occurs_at(input, start, closed(x)) implies more.is_prefix_of(
        x,
    ) && occurs_at(input, at + width, closed(x.skip(more.len() as int))) by {
        let rest = x.skip(seen.len() as int);
        lemma_closed_step(input, at, rest);
        assert(rest.skip(1) =~= x.skip(more.len() as int));
        assert(more =~= x.subrange(0, more.len() as int));
    }
}

/// The closing quote has been reached: the text is what has been read.
proof fn lemma_scan_end(input: Seq<u8>, start: int, at: int, seen: Seq<u8>)
    requires
        scanned(input, start, at, seen),
        at < input.len(),
        input[at] == QUOTE,
    ensures
        occurs_at(input, start, closed(seen)),
        closed(seen).len() == at + 1 - start,
        forall|x: Seq<u8>| #[trigger] occurs_at(input, start, closed(x)) ==> x == seen,
{
    assert(input.subrange(start, at + 1) =~= closed(seen));
    assert forall|x: Seq<u8>| #[trigger] occurs_at(input, start, closed(x)) implies x == seen by {
        lemma_closed_step(input, at, x.skip(seen.len() as int));
        assert(x =~= seen);
    }
}

/// The input ends, or a backslash is followed by neither a quote nor a
/// backslash: no closed text stands at `start`.
proof fn lemma_scan_stuck(input: Seq<u8>, start: int, at: int, seen: Seq<u8>)
    requires
        scanned(input, start, at, seen),
        at >= input.len() || (input[at] == BACKSLASH && (at + 1 >= input.len() || (input[at + 1]
            != QUOTE && input[at + 1] != BACKSLASH))),
    ensures
        forall|x: Seq<u8>| !occurs_at(input, start, closed(x)),
{
    assert forall|x: Seq<u8>| !occurs_at(input, start, closed(x)) by {
        if occurs_at(input, start, closed(x)) {
            lemma_closed_step(input, at, x.skip(seen.len() as int));
        }
    }
}

/// Where no quote stands, or no closed text behind it, no encoded text
/// stands.
proof fn lemma_no_text(input: Seq<u8>, at: int)
    requires
        !occurs_at(input, at, seq![QUOTE]) || forall|x: Seq<u8>|
            !occurs_at(input, at + 1, closed(x)),
    ensures
        forall|t: Seq<char>| !occurs_at(input, at, #[trigger] encode_text(t)),
{
    assert forall|t: Seq<char>| !occurs_at(input, at, #[trigger] encode_text(t)) by {
        lemma_text_parts(input, at, encode_utf8(t));
    }
}

/// Reads a text at a position.
fn read_text(input: &[u8], at: usize) -> (found: Option<(String, usize)>)
    requires
        at <= input.len(),
    ensures
        match found {
            Some((text, next)) => next == at + encode_text(text@).len() && occurs_at(
                input@,
                at as int,
                encode_text(text@),
            ),
            None => forall|t: Seq<char>| !occurs_at(input@, at as int, #[trigger] encode_text(t)),
        },
{
    if at >= input.len() || input[at] != QUOTE {
        proof {
            if at < input.len() {
                assert(input@.subrange(at as int, at + 1)[0] == input@[at as int]);
            }
            lemma_no_text(input@, at as int);
        }
        return None;
    }
    let mut raw: Vec<u8> = Vec::new();
    let mut i: usize = at + 1;
    proof {
        lemma_scan_start(input@, at + 1);
    }
    loop
        invariant
            at < i <= input.len(),
            input@[at as int] == QUOTE,
            scanned(input@, at + 1, i as int, raw@),
        decreases input.len() - i,
    {
        if i >= input.len() {
            proof {
                lemma_scan_stuck(input@, at + 1, i as int, raw@);
                lemma_no_text(input@, at as int);
            }
            return None;
        }
        let b = input[i];
        if b == QUOTE {
            proof {
                lemma_scan_end(input@, at + 1, i as int, raw@);
                lemma_text_parts(input@, at as int, raw@);
                assert(input@.subrange(at as int, at + 1) =~= seq![QUOTE]);
                assert(quoted(raw@).len() == closed(raw@).len() + 1);
                if !valid_utf8(raw@) {
                    assert forall|t: Seq<char>|
                        !occurs_at(input@, at as int, #[trigger] encode_text(t)) by {
                        lemma_text_parts(input@, at as int, encode_utf8(t));
                        encode_utf8_valid_utf8(t);
                    }
                }
            }
            return match text_of_utf8(raw) {
                Some(text) => Some((text, i + 1)),
                None => None,
            };
        }
        if b == BACKSLASH {
            if i + 1 >= input.len() || (input[i + 1] != QUOTE && input[i + 1] != BACKSLASH) {
                proof {
                    lemma_scan_stuck(input@, at + 1, i as int, raw@);
                    lemma_no_text(input@, at as int);
                }
                return None;
            }
            proof {
                lemma_scan_step(input@, at + 1, i as int, raw@, 2);
            }
            raw.push(input[i + 1]);
            i += 2;
        } else {
            proof {
                lemma_scan_step(input@, at + 1, i as int, raw@, 1);
            }
            raw.push(b);
            i += 1;
        }
    }
}

/// Reads an owner at a position.
fn read_owner(input: &[u8], at: usize) -> (found: Option<(Owner, usize)>)
    requires
        at <= input.len(),
    ensures
        match found {
            Some((owner, next)) => next == at + encode_owner(owner).len() && occurs_at(
                input@,
                at as int,
                encode_owner(owner),
            ),
            None => forall|o: Owner| !occurs_at(input@, at as int, #[trigger] encode_owner(o)),
        },
{
    match read_word(input, at, "Linus") {
        Some(next) => Some((Owner::Linus, next)),
        None => match read_word(input, at, "Johannes") {
            Some(next) => Some((Owner::Johannes, next)),
            None => None,
        },
    }
}

/// Reads a chore at a position: the record that stands there, with the
/// default owner where the record has none.
fn read_record(input: &[u8], at: usize) -> (found: Option<(Chore, Ghost<RecordModel>, usize)>)
    requires
        at <= input.len(),
    ensures
        match found {
            Some((chore, record, next)) => {
                &&& chore@ == filled(record@)
                &&& next == at + encode_record(record@).len()
                &&& occurs_at(input@, at as int, encode_record(record@))
            },
            None => forall|r: RecordModel| !occurs_at(input@, at as int, #[trigger] encode_record(r)),
        },
{
    proof {
        lemma_words();
        assert forall|r: RecordModel|
            occurs_at(input@, at as int, #[trigger] encode_record(r)) <==> record_parts(
                input@,
                at as int,
                r,
            ) by {
            lemma_record_parts(input@, at as int, r);
        }
    }
    let name_at = match read_word(input, at, "(name:") {
        Some(next) => next,
        None => { return None; },
    };
    let (name, due_key_at) = match read_text(input, name_at) {
        Some(found) => found,
        None => { return None; },
    };
    proof {
        assert forall|r: RecordModel| #![auto] record_parts(input@, at as int, r) implies r.name
            == name@ by {
            lemma_text_unique(input@, name_at as int, r.name, name@);
        }
    }
    let due_at = match read_word(input, due_key_at, ",due:") {
        Some(next) => next,
        None => { return None; },
    };
    let (due, owner_key_at) = match read_text(input, due_at) {
        Some(found) => found,
        None => { return None; },
    };
    proof {
        assert forall|r: RecordModel| #![auto] record_parts(input@, at as int, r) implies r.due
            == due@ by {
            lemma_text_unique(input@, due_at as int, r.due, due@);
        }
    }
    let (owner, written, end_at) = match read_word(input, owner_key_at, ",owner:") {
        Some(owner_at) => {
            proof {
                let here = owner_key_at as int;
                assert(input@.subrange(here, owner_at as int)[0] == input@[here]);
                assert forall|r: RecordModel| #![auto]
                    record_parts(input@, at as int, r) implies r.owner is Some by {
                    if r.owner is None {
                        assert(input@.subrange(here, here + 1)[0] == input@[here]);
                    }
                }
            }
            match read_owner(input, owner_at) {
                Some((owner, next)) => {
                    proof {
                        assert forall|r: RecordModel| #![auto]
                            record_parts(input@, at as int, r) implies r.owner == Some(owner) by {
                            lemma_owner_unique(input@, owner_at as int, r.owner->0, owner);
                        }
                    }
                    (owner, Ghost(Some(owner)), next)
                },
                None => { return None; },
            }
        },
        None => (Owner::default(), Ghost(None::<Owner>), owner_key_at),
    };
    let next = match read_word(input, end_at, ")") {
        Some(next) => next,
        None => { return None; },
    };
    let ghost record = RecordModel { name: name@, due: due@, owner: written@ };
    Some((Chore { name, due, owner }, Ghost(record), next))
}

/// Writing records in a row goes through a concatenation.
proof fn lemma_items_concat(a: Seq<RecordModel>, b: Seq<RecordModel>)
    ensures
        encode_items(a + b) == encode_items(a) + encode_items(b),
    decreases a.len(),
{
    if a.len() == 0 {
        assert(a + b =~= b);
        assert(encode_items(a) + encode_items(b) =~= encode_items(b));
    } else {
        assert((a + b).skip(1) =~= a.skip(1) + b);
        lemma_items_concat(a.skip(1), b);
        let head = seq![COMMA] + encode_record(a[0]);
        assert(encode_items(a + b) =~= head + (encode_items(a.skip(1)) + encode_items(b)));
        assert(encode_items(a) + encode_items(b) =~= head + (encode_items(a.skip(1))
            + encode_items(b)));
    }
}

/// The state of reading the rest of a list that begins at `start`, when the
/// bytes up to `at` have been read as `seen`: those bytes are `seen` in a row,
/// and every rest of a list that stands at `start` begins with `seen` and goes
/// on at `at`.
spec fn listed(input: Seq<u8>, start: int, at: int, seen: Seq<RecordModel>) -> bool {
    &&& 0 <= start <= at <= input.len()
    &&& input.subrange(start, at) == encode_items(seen)
    &&& forall|xs: Seq<RecordModel>| #[trigger]
        occurs_at(input, start, closed_items(xs)) ==> seen.is_prefix_of(xs) && occurs_at(
            input,
            at,
            closed_items(xs.skip(seen.len() as int)),
        )
}

/// Nothing but the first record has been read yet.
proof fn lemma_list_start(input: Seq<u8>, start: int)
    requires
        0 <= start <= input.len(),
    ensures
        listed(input, start, start, Seq::empty()),
{
    assert(input.subrange(start, start) =~= encode_items(Seq::empty()));
    assert forall|xs: Seq<RecordModel>| #[trigger]
        occurs_at(input, start, closed_items(xs)) implies Seq::<RecordModel>::empty().is_prefix_of(
        xs,
    ) && occurs_at(input, start, closed_items(xs.skip(0))) by {
        assert(xs.skip(0) =~= xs);
    }
}

/// A comma and one more record have been read.
proof fn lemma_list_step(input: Seq<u8>, start: int, at: int, seen: Seq<RecordModel>, record: RecordModel)
    requires
        listed(input, start, at, seen),
        at < input.len(),
        input[at] == COMMA,
        occurs_at(input, at + 1, encode_record(record)),
    ensures
        listed(input, start, at + 1 + encode_record(record).len(), seen.push(record)),
{
    lemma_words();
    let more = seen.push(record);
    let next = at + 1 + encode_record(record).len();
    let item = seq![COMMA] + encode_record(record);
    lemma_items_concat(seen, seq![record]);
    assert(more =~= seen + seq![record]);
    assert(encode_items(seq![record].skip(1)) =~= Seq::<u8>::empty());
    assert(encode_items(seq![record]) =~= item);
    assert(input.subrange(at, next) =~= item) by {
        assert(input.subrange(at, at + 1) =~= seq![COMMA]);
        lemma_occurs_concat(input, at, seq![COMMA], encode_record(record));
    }
    assert(input.subrange(start, next) =~= input.subrange(start, at) + input.subrange(at, next));
    assert forall|xs: Seq<RecordModel>| #[trigger]
        occurs_at(input, start, closed_items(xs)) implies more.is_prefix_of(xs) && occurs_at(
        input,
        next,
        closed_items(xs.skip(more.len() as int)),
    ) by {
        let rest = xs.skip(seen.len() as int);
        lemma_items_step(input, at, rest);
        lemma_record_unique(input, at + 1, rest[0], record);
        assert(rest.skip(1) =~= xs.skip(more.len() as int));
        assert(more =~= xs.subrange(0, more.len() as int));
    }
}

/// The closing bracket has been reached: the rest of the list is what has
/// been read.
proof fn lemma_list_end(input: Seq<u8>, start: int, at: int, seen: Seq<RecordModel>)
    requires
        listed(input, start, at, seen),
        at < input.len(),
        input[at] == CLOSE_LIST,
    ensures
        occurs_at(input, start, closed_items(seen)),
        closed_items(seen).len() == at + 1 - start,
        forall|xs: Seq<RecordModel>| #[trigger] occurs_at(input, start, closed_items(xs)) ==> xs == seen,
{
    lemma_words();
    assert(input.subrange(start, at + 1) =~= closed_items(seen));
    assert forall|xs: Seq<RecordModel>| #[trigger]
        occurs_at(input, start, closed_items(xs)) implies xs == seen by {
        lemma_items_step(input, at, xs.skip(seen.len() as int));
        assert(xs =~= seen);
    }
}

/// The input ends, or what follows is neither the closing bracket nor a comma
/// and a record: no rest of a list stands at `start`.
proof fn lemma_list_stuck(input: Seq<u8>, start: int, at: int, seen: Seq<RecordModel>)
    requires
        listed(input, start, at, seen),
        at >= input.len() || (input[at] != CLOSE_LIST && input[at] != COMMA) || (input[at]
            == COMMA && forall|r: RecordModel|
            !occurs_at(input, at + 1, #[trigger] encode_record(r))),
    ensures
        forall|xs: Seq<RecordModel>| !occurs_at(input, start, #[trigger] closed_items(xs)),
{
    assert forall|xs: Seq<RecordModel>| !occurs_at(input, start, #[trigger] closed_items(xs)) by {
        if occurs_at(input, start, closed_items(xs)) {
            lemma_items_step(input, at, xs.skip(seen.len() as int));
        }
    }
}

/// Reads a list of chores at a position: the records that stand there, each
/// with the default owner where it has none.
pub(crate) fn read_chores(input: &[u8], at: usize) -> (found: Option<
    (Vec<Chore>, Ghost<Seq<RecordModel>>, usize),
>)
    requires
        at <= input.len(),
    ensures
        match found {
            Some((chores, records, next)) => {
                &&& views(chores@) == fills(records@)
                &&& next == at + encode_list(records@).len()
                &&& occurs_at(input@, at as int, encode_list(records@))
            },
            None => forall|rs: Seq<RecordModel>|
                !occurs_at(input@, at as int, #[trigger] encode_list(rs)),
        },
{
    proof {
        lemma_words();
        assert forall|rs: Seq<RecordModel>|
            occurs_at(input@, at as int, #[trigger] encode_list(rs)) <==> list_parts(
                input@,
                at as int,
                rs,
            ) by {
            lemma_list_parts(input@, at as int, rs);
        }
    }
    if at >= input.len() || input[at] != OPEN_LIST {
        assert(!occurs_at(input@, at as int, seq![OPEN_LIST])) by {
            if at < input.len() {
                assert(input@.subrange(at as int, at + 1)[0] == input@[at as int]);
            }
        }
        return None;
    }
    assert(input@.subrange(at as int, at + 1) =~= seq![OPEN_LIST]);
    let first_at: usize = at + 1;
    let mut chores: Vec<Chore> = Vec::new();
    let ghost mut records: Seq<RecordModel> = Seq::empty();
    if first_at < input.len() && input[first_at] == CLOSE_LIST {
        proof {
            assert(input@.subrange(first_at as int, first_at + 1) =~= seq![CLOSE_LIST]);
            assert(views(chores@) =~= fills(records));
            lemma_list_parts(input@, at as int, records);
        }
        return Some((chores, Ghost(records), first_at + 1));
    }
    assert(!occurs_at(input@, first_at as int, seq![CLOSE_LIST])) by {
        if first_at < input.len() {
            assert(input@.subrange(first_at as int, first_at + 1)[0] == input@[first_at as int]);
        }
    }
    let (first, first_record, rest_at) = match read_record(input, first_at) {
        Some(found) => found,
        None => { return None; },
    };
    chores.push(first);
    let mut i: usize = rest_at;
    proof {
        records = records.push(first_record@);
        lemma_list_start(input@, rest_at as int);
        assert(records.skip(1) =~= Seq::<RecordModel>::empty());
        assert(views(chores@) =~= fills(records));
        assert forall|rs: Seq<RecordModel>|
            occurs_at(input@, at as int, #[trigger] encode_list(rs)) implies occurs_at(
            input@,
            rest_at as int,
            closed_items(rs.skip(1)),
        ) by {
            lemma_record_unique(input@, first_at as int, rs[0], first_record@);
        }
    }
    loop
        invariant
            first_at == at + 1,
            first_at <= rest_at <= i <= input.len(),
            records.len() > 0,
            views(chores@) == fills(records),
            rest_at == first_at + encode_record(records[0]).len(),
            occurs_at(input@, at as int, seq![OPEN_LIST]),
            occurs_at(input@, first_at as int, encode_record(records[0])),
            listed(input@, rest_at as int, i as int, records.skip(1)),
            forall|rs: Seq<RecordModel>|
                occurs_at(input@, at as int, #[trigger] encode_list(rs)) ==> occurs_at(
                    input@,
                    rest_at as int,
                    closed_items(rs.skip(1)),
                ),
        decreases input.len() - i,
    {
        let ghost seen = records.skip(1);
        if i >= input.len() || (input[i] != CLOSE_LIST && input[i] != COMMA) {
            proof {
                lemma_list_stuck(input@, rest_at as int, i as int, seen);
            }
            return None;
        }
        if input[i] == CLOSE_LIST {
            proof {
                lemma_list_end(input@, rest_at as int, i as int, seen);
                lemma_list_parts(input@, at as int, records);
            }
            return Some((chores, Ghost(records), i + 1));
        }
        let (chore, record, next) = match read_record(input, i + 1) {
            Some(found) => found,
            None => {
                proof {
                    lemma_list_stuck(input@, rest_at as int, i as int, seen);
                }
                return None;
            },
        };
        proof {
            lemma_list_step(input@, rest_at as int, i as int, seen, record@);
            assert(records.push(record@).skip(1) =~= seen.push(record@));
            assert(views(chores@.push(chore)) =~= views(chores@).push(chore@));
            assert(fills(records.push(record@)) =~= fills(records).push(filled(record@)));
            records = records.push(record@);
        }
        chores.push(chore);
        i = next;
    }
}

} // verus!
