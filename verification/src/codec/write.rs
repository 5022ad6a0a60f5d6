//! Writing the encoding, part by part.

use vstd::prelude::*;
use crate::chore::{Chore, Owner};
use crate::codec::{encode_chore, encode_text, escaped, word, BACKSLASH, QUOTE};

verus! {

/// Appends the bytes of a word.
pub(crate) fn write_word(out: &mut Vec<u8>, w: &str)
    ensures
        final(out)@ == old(out)@ + word(w),
{
    let bytes = w.as_bytes();
    let mut i: usize = 0;
    while i < bytes.len()
        invariant
            i <= bytes.len(),
            out@ == old(out)@ + bytes@.take(i as int),
        decreases bytes.len() - i,
    {
        out.push(bytes[i]);
        i += 1;
        assert(out@ =~= old(out)@ + bytes@.take(i as int));
    }
    assert(bytes@.take(i as int) =~= bytes@);
}

/// Appends the encoding of a text.
fn write_text(out: &mut Vec<u8>, text: &str)
    ensures
        final(out)@ == old(out)@ + encode_text(text@),
{
    let raw = text.as_bytes();
    out.push(QUOTE);
    let mut i: usize = 0;
    assert(raw@.skip(0) =~= raw@);
    while i < raw.len()
        invariant
            i <= raw.len(),
            out@ + escaped(raw@.skip(i as int)) == old(out)@ + seq![QUOTE] + escaped(raw@),
        decreases raw.len() - i,
    {
        let b = raw[i];
        proof {
            let rest = raw@.skip(i as int);
            assert(rest[0] == b);
            assert(rest.skip(1) =~= raw@.skip(i + 1));
        }
        let ghost before = out@;
        if b == QUOTE || b == BACKSLASH {
            out.push(BACKSLASH);
        }
        out.push(b);
        i += 1;
        assert(out@ + escaped(raw@.skip(i as int)) =~= before + escaped(raw@.skip(i - 1)));
    }
    assert(escaped(raw@.skip(i as int)) =~= Seq::<u8>::empty());
    out.push(QUOTE);
    assert(out@ =~= old(out)@ + encode_text(text@));
}

/// Appends the encoding of a chore.
pub(crate) fn write_chore(out: &mut Vec<u8>, chore: &Chore)
    ensures
        final(out)@ == old(out)@ + encode_chore(chore@),
{
    write_word(out, "(name:");
    write_text(out, chore.name.as_str());
    write_word(out, ",due:");
    write_text(out, chore.due.as_str());
    write_word(out, ",owner:");
    match chore.owner {
        Owner::Linus => write_word(out, "Linus"),
        Owner::Johannes => write_word(out, "Johannes"),
    }
    write_word(out, ")");
    assert(out@ =~= old(out)@ + encode_chore(chore@));
}

} // verus!
