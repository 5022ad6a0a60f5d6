use chore_list::chore::{Chore, Owner};
use chore_list::codec::{decode, encode, BACKSLASH, QUOTE};

fn chore(name: &str, due: &str, owner: Owner) -> Chore {
    Chore { name: name.to_string(), due: due.to_string(), owner }
}

fn triples(chores: &[Chore]) -> Vec<(String, String, Owner)> {
    chores.iter().map(|c| (c.name.clone(), c.due.clone(), c.owner)).collect()
}

#[test]
fn quote_and_backslash_are_the_ascii_bytes() {
    assert_eq!(QUOTE, b'"');
    assert_eq!(BACKSLASH, b'\\');
}

#[test]
fn encode_writes_the_fields_in_order() {
    let bytes = encode(&[chore("Bad", "Tomorrow", Owner::Linus)]);
    assert_eq!(bytes, b"(chores:[(name:\"Bad\",due:\"Tomorrow\",owner:Linus)])".to_vec());
}

#[test]
fn encode_of_no_chores() {
    assert_eq!(encode(&[]), b"(chores:[])".to_vec());
}

#[test]
fn encode_puts_commas_between_chores() {
    let bytes = encode(&[
        chore("a", "b", Owner::Johannes),
        chore("c", "d", Owner::Linus),
        chore("e", "f", Owner::Johannes),
    ]);
    assert_eq!(
        bytes,
        b"(chores:[(name:\"a\",due:\"b\",owner:Johannes),(name:\"c\",due:\"d\",owner:Linus),(name:\"e\",due:\"f\",owner:Johannes)])"
            .to_vec()
    );
}

#[test]
fn encode_escapes_quotes_and_backslashes_only() {
    let bytes = encode(&[chore("\"\\", "'\n\t", Owner::Linus)]);
    assert_eq!(bytes, b"(chores:[(name:\"\\\"\\\\\",due:\"'\n\t\",owner:Linus)])".to_vec());
}

#[test]
fn encode_writes_texts_as_utf8() {
    let bytes = encode(&[chore("Küche", "€", Owner::Linus)]);
    assert_eq!(
        bytes,
        b"(chores:[(name:\"K\xc3\xbcche\",due:\"\xe2\x82\xac\",owner:Linus)])".to_vec()
    );
}

#[test]
fn decode_reads_what_encode_wrote() {
    let stores = vec![
        vec![],
        vec![chore("", "", Owner::Linus)],
        vec![chore("Bad", "Tomorrow", Owner::Linus), chore("Bad", "Tomorrow", Owner::Linus)],
        vec![chore("\"", "\\", Owner::Johannes), chore("\\\"", "\"\\\"", Owner::Linus)],
        vec![chore("(name:\"x\",due:\"y\",owner:Linus)", "])", Owner::Johannes)],
        vec![chore("Хлеб", "明日", Owner::Johannes), chore("🧹", "\u{10FFFF}", Owner::Linus)],
    ];
    for store in stores {
        let bytes = encode(&store);
        let read = decode(&bytes).expect("an encoding is read");
        assert_eq!(triples(&read), triples(&store));
        assert_eq!(encode(&read), bytes);
    }
}

#[test]
fn decode_fills_in_the_default_owner() {
    let read = decode(b"(chores:[(name:\"a\",due:\"b\"),(name:\"c\",due:\"d\",owner:Johannes),(name:\"\",due:\"\")])")
        .expect("the owner may be missing");
    assert_eq!(
        triples(&read),
        vec![
            ("a".to_string(), "b".to_string(), Owner::Linus),
            ("c".to_string(), "d".to_string(), Owner::Johannes),
            ("".to_string(), "".to_string(), Owner::Linus),
        ]
    );
    assert_eq!(
        encode(&read),
        b"(chores:[(name:\"a\",due:\"b\",owner:Linus),(name:\"c\",due:\"d\",owner:Johannes),(name:\"\",due:\"\",owner:Linus)])"
            .to_vec()
    );
}

#[test]
fn decode_refuses_a_record_without_name_or_due() {
    let inputs: Vec<&[u8]> = vec![
        b"(chores:[()])",
        b"(chores:[(name:\"a\")])",
        b"(chores:[(due:\"b\")])",
        b"(chores:[(owner:Linus)])",
        b"(chores:[(name:\"a\",owner:Linus)])",
        b"(chores:[(due:\"b\",owner:Linus)])",
        b"(chores:[(name:\"a\",due:\"b\",)])",
        b"(chores:[(name:\"a\",due:\"b\",owner:)])",
        b"(chores:[(name:\"a\",due:\"b\",owner)])",
        b"(chores:[(name:\"a\",due:\"b\"owner:Linus)])",
        b"(chores:[(name:\"a\",due:\"b\",owner:Linus,owner:Linus)])",
    ];
    for input in inputs {
        assert!(decode(input).is_none(), "input {:?}", input);
    }
}

#[test]
fn encode_gives_utf8() {
    let mut dice = Dice(3);
    for _ in 0..200 {
        assert!(String::from_utf8(encode(&dice.store())).is_ok());
    }
}

#[test]
fn decode_refuses_what_is_no_encoding() {
    let inputs: Vec<&[u8]> = vec![
        b"",
        b"(",
        b"()",
        b"(chores:[])\n",
        b"(chores:[],)",
        b"App(chores:[])",
        b"(chores:[(name:\"a\",due:\"b\",owner:Linus,)])",
        b"(chores:[(name:\"a\", due:\"b\", owner:Linus)])",
        b"(chores:[(name:\"a\",due:\"b\",owner:Johanne)])",
        b"(chores:[(name:\"a\",due:\"b\",owner:Johannes",
        b"(chores:[(name:\"a\\n\",due:\"b\",owner:Linus)])",
        b"(chores:[(name:\"a\",due:\"b\\",
        b"(chores:[(name:\"a",
    ];
    for input in inputs {
        assert!(decode(input).is_none(), "input {:?}", input);
    }
}

#[test]
fn decode_refuses_texts_that_are_not_utf8() {
    let inputs: Vec<&[u8]> = vec![
        b"(chores:[(name:\"\x80\",due:\"b\",owner:Linus)])",
        b"(chores:[(name:\"a\",due:\"\xc3\",owner:Linus)])",
        b"(chores:[(name:\"\xed\xa0\x80\",due:\"b\",owner:Linus)])",
        b"(chores:[(name:\"\xc0\xaf\",due:\"b\",owner:Linus)])",
        b"(chores:[(name:\"\xf4\x90\x80\x80\",due:\"b\",owner:Linus)])",
    ];
    for input in inputs {
        assert!(decode(input).is_none(), "input {:?}", input);
    }
}

#[test]
fn decode_turns_utf8_into_text() {
    let read = decode(b"(chores:[(name:\"K\xc3\xbcche\",due:\"\xf0\x9f\xa7\xb9\",owner:Johannes)])")
        .expect("well-formed");
    assert_eq!(read.len(), 1);
    assert_eq!(read[0].name, "Küche");
    assert_eq!(read[0].name.chars().count(), 5);
    assert_eq!(read[0].due, "🧹");
    assert_eq!(read[0].owner, Owner::Johannes);
}

#[test]
fn chore_clone_keeps_the_fields() {
    let c = chore("Bad", "Tomorrow", Owner::Linus);
    let d = c.clone();
    assert_eq!(d.name, "Bad");
    assert_eq!(d.due, "Tomorrow");
    assert_eq!(d.owner, Owner::Linus);
    assert_ne!(Owner::Linus, Owner::Johannes);
}

/// A small generator of repeatable numbers.
struct Dice(u64);

impl Dice {
    fn roll(&mut self, sides: u64) -> u64 {
        self.0 = self.0.wrapping_mul(6364136223846793005).wrapping_add(1442695040888963407);
        (self.0 >> 33) % sides
    }

    fn text(&mut self) -> String {
        let alphabet: Vec<char> =
            vec!['a', 'Z', '0', ' ', '"', '\\', ',', ':', '(', ')', '[', ']', '\n', 'ü', '€', '🧹'];
        let len = self.roll(6);
        (0..len).map(|_| alphabet[self.roll(alphabet.len() as u64) as usize]).collect()
    }

    fn store(&mut self) -> Vec<Chore> {
        let len = self.roll(4);
        (0..len)
            .map(|_| {
                let owner = if self.roll(2) == 0 { Owner::Linus } else { Owner::Johannes };
                chore(&self.text(), &self.text(), owner)
            })
            .collect()
    }
}

#[test]
fn decode_is_the_inverse_of_encode_on_many_stores() {
    let mut dice = Dice(7);
    for _ in 0..500 {
        let store = dice.store();
        let bytes = encode(&store);
        let read = decode(&bytes).expect("an encoding is read");
        assert_eq!(triples(&read), triples(&store));
    }
}

#[test]
fn decode_reads_nothing_but_encodings() {
    let mut dice = Dice(11);
    for _ in 0..500 {
        let mut bytes = encode(&dice.store());
        let at = dice.roll(bytes.len() as u64) as usize;
        match dice.roll(3) {
            0 => bytes[at] = dice.roll(256) as u8,
            1 => {
                bytes.remove(at);
            }
            _ => bytes.insert(at, dice.roll(256) as u8),
        }
        if let Some(read) = decode(&bytes) {
            let written = encode(&read);
            assert!(written == bytes || written.len() > bytes.len());
            assert_eq!(triples(&decode(&written).expect("an encoding is read")), triples(&read));
        }
    }
}

#[test]
fn decode_refuses_every_encoding_cut_short() {
    let bytes = encode(&[
        chore("a\"b", "c\\d", Owner::Linus),
        chore("Küche", "", Owner::Johannes),
    ]);
    for len in 0..bytes.len() {
        assert!(decode(&bytes[..len]).is_none(), "length {}", len);
    }
    assert!(decode(&bytes).is_some());
}
