use chore_list::app::{App, Section};
use chore_list::chore::{Chore, Owner};

const DEFAULT_STORE: &str = "(chores:[(name:\"Staubsaugen\",due:\"Today\",owner:Linus),(name:\"Bad\",due:\"Tomorrow\",owner:Linus),(name:\"Boden\",due:\"Tomorrow\",owner:Johannes)])";

fn triples(chores: &[Chore]) -> Vec<(String, String, Owner)> {
    chores.iter().map(|c| (c.name.clone(), c.due.clone(), c.owner)).collect()
}

fn triple(name: &str, due: &str, owner: Owner) -> (String, String, Owner) {
    (name.to_string(), due.to_string(), owner)
}

fn rows(section: &Section) -> Vec<(String, String)> {
    section.table.rows.iter().map(|r| (r.name.clone(), r.due.clone())).collect()
}

fn pair(name: &str, due: &str) -> (String, String) {
    (name.to_string(), due.to_string())
}

#[test]
fn default_store_holds_the_three_chores_in_order() {
    let app = App::default();
    assert_eq!(app.save(), DEFAULT_STORE.as_bytes().to_vec());
    assert_eq!(
        triples(&app.chores_of(Owner::Linus)),
        vec![triple("Staubsaugen", "Today", Owner::Linus), triple("Bad", "Tomorrow", Owner::Linus)]
    );
    assert_eq!(
        triples(&app.chores_of(Owner::Johannes)),
        vec![triple("Boden", "Tomorrow", Owner::Johannes)]
    );
}

#[test]
fn nothing_kept_loads_the_default_store() {
    let app = App::new(None);
    assert_eq!(app.save(), App::default().save());
    assert_eq!(app.save(), DEFAULT_STORE.as_bytes().to_vec());
}

#[test]
fn malformed_bytes_load_the_default_store() {
    let inputs: Vec<&[u8]> = vec![
        b"",
        b"garbage",
        b"()",
        b"(chores:",
        b"(chores:[)",
        b"(chores:[]",
        b"(chores:[],)",
        b"(chores:[]) ",
        b" (chores:[])",
        b"(chores: [])",
        b"(chores:[(name:\"Bad\",due:\"Tomorrow\",owner:Linus),])",
        b"(chores:[,(name:\"Bad\",due:\"Tomorrow\",owner:Linus)])",
        b"(chores:[(name:\"Bad\",due:\"Tomorrow\",owner:Linus)(name:\"Bad\",due:\"Tomorrow\",owner:Linus)])",
        b"(chores:[(due:\"Tomorrow\",owner:Linus)])",
        b"(chores:[(name:\"Bad\")])",
        b"(chores:[()])",
        b"(chores:[(name:\"Bad\",due:\"Tomorrow\",)])",
        b"(chores:[(name:\"Bad\",due:\"Tomorrow\",owner:)])",
        b"(chores:[(owner:Linus,name:\"Bad\",due:\"Tomorrow\")])",
        b"(chores:[(name:\"Bad\",owner:Linus)])",
        b"(chores:[(due:\"Tomorrow\",name:\"Bad\",owner:Linus)])",
        b"(chores:[(name:\"Bad\",due:\"Tomorrow\",owner:Anna)])",
        b"(chores:[(name:\"Bad\",due:\"Tomorrow\",owner:linus)])",
        b"(chores:[(name:\"Bad\",due:\"Tomorrow\",owner:\"Linus\")])",
        b"(chores:[(name:\"Bad,due:\"Tomorrow\",owner:Linus)])",
        b"(chores:[(name:\"Bad\",due:\"Tomorrow,owner:Linus)])",
        b"(chores:[(name:\"Ba\\d\",due:\"Tomorrow\",owner:Linus)])",
        b"(chores:[(name:\"Bad\\\",due:\"Tomorrow\",owner:Linus)])",
        b"(chores:[(name:\"Bad\",due:\"Tomorrow\",owner:Linus)]",
        b"(chores:[(name:\"Bad\",due:\"Tomorrow\",owner:Linus)))",
        b"(chores:[(name:\"Bad\",due:\"Tomorrow\",owner:Linus)])x",
        b"(chores:[(name:\"B\xffd\",due:\"Tomorrow\",owner:Linus)])",
        b"(chores:[(name:\"Bad\",due:\"\xc3\",owner:Linus)])",
    ];
    for input in inputs {
        let app = App::new(Some(input));
        assert_eq!(app.save(), DEFAULT_STORE.as_bytes().to_vec(), "input {:?}", input);
        assert_eq!(app.save(), App::new(None).save());
    }
}

#[test]
fn chore_kept_without_owner_loads_with_the_default_owner() {
    let app = App::new(Some(b"(chores:[(name:\"Bad\",due:\"Tomorrow\")])"));
    assert_eq!(Owner::default(), Owner::Linus);
    assert_eq!(
        triples(&app.chores_of(Owner::default())),
        vec![triple("Bad", "Tomorrow", Owner::Linus)]
    );
    assert!(app.chores_of(Owner::Johannes).is_empty());
    assert_ne!(app.save(), App::default().save());
    assert_eq!(app.save(), b"(chores:[(name:\"Bad\",due:\"Tomorrow\",owner:Linus)])".to_vec());
}

#[test]
fn chores_kept_with_and_without_owner_keep_their_order() {
    let kept = b"(chores:[(name:\"a\",due:\"1\"),(name:\"b\",due:\"2\",owner:Johannes),(name:\"c\",due:\"3\",owner:Linus),(name:\"d\",due:\"4\"),(name:\"e\",due:\"5\",owner:Johannes)])";
    let app = App::new(Some(kept));
    assert_eq!(
        triples(&app.chores_of(Owner::Linus)),
        vec![
            triple("a", "1", Owner::Linus),
            triple("c", "3", Owner::Linus),
            triple("d", "4", Owner::Linus)
        ]
    );
    assert_eq!(
        triples(&app.chores_of(Owner::Johannes)),
        vec![triple("b", "2", Owner::Johannes), triple("e", "5", Owner::Johannes)]
    );
    let saved = app.save();
    assert_eq!(
        saved,
        b"(chores:[(name:\"a\",due:\"1\",owner:Linus),(name:\"b\",due:\"2\",owner:Johannes),(name:\"c\",due:\"3\",owner:Linus),(name:\"d\",due:\"4\",owner:Linus),(name:\"e\",due:\"5\",owner:Johannes)])"
            .to_vec()
    );
    let again = App::new(Some(&saved));
    assert_eq!(again.save(), saved);
    for owner in [Owner::Linus, Owner::Johannes] {
        assert_eq!(triples(&again.chores_of(owner)), triples(&app.chores_of(owner)));
    }
}

#[test]
fn saved_bytes_are_utf8() {
    let inputs: Vec<&[u8]> = vec![
        DEFAULT_STORE.as_bytes(),
        b"(chores:[])",
        b"(chores:[(name:\"\\\\\",due:\"\\\"\")])",
        "(chores:[(name:\"Küche \\\" 洗濯\",due:\"🧺\\\\\",owner:Johannes)])".as_bytes(),
    ];
    for input in inputs {
        let app = App::new(Some(input));
        assert!(String::from_utf8(app.save()).is_ok());
    }
    assert!(String::from_utf8(App::new(None).save()).is_ok());
}

#[test]
fn kept_bytes_load_the_store_they_encode() {
    let kept = b"(chores:[(name:\"Fenster\",due:\"Friday\",owner:Johannes),(name:\"Bad\",due:\"Today\",owner:Linus),(name:\"Fenster\",due:\"Friday\",owner:Johannes)])";
    let app = App::new(Some(kept));
    assert_eq!(triples(&app.chores_of(Owner::Linus)), vec![triple("Bad", "Today", Owner::Linus)]);
    assert_eq!(
        triples(&app.chores_of(Owner::Johannes)),
        vec![
            triple("Fenster", "Friday", Owner::Johannes),
            triple("Fenster", "Friday", Owner::Johannes)
        ]
    );
    assert_eq!(app.save(), kept.to_vec());
}

#[test]
fn empty_store_is_kept_empty() {
    let app = App::new(Some(b"(chores:[])"));
    assert!(app.chores_of(Owner::Linus).is_empty());
    assert!(app.chores_of(Owner::Johannes).is_empty());
    assert_eq!(app.save(), b"(chores:[])".to_vec());
    let page = app.update();
    assert_eq!(page.len(), 2);
    assert!(page[0].table.rows.is_empty());
    assert!(page[1].table.rows.is_empty());
}

#[test]
fn load_save_load_gives_the_same_store() {
    let inputs: Vec<&[u8]> = vec![
        DEFAULT_STORE.as_bytes(),
        b"(chores:[])",
        b"(chores:[(name:\"\",due:\"\",owner:Johannes)])",
        b"(chores:[(name:\"a \\\"b\\\" \\\\ c\",due:\"),(\",owner:Linus),(name:\"]\",due:\",owner:Linus\",owner:Johannes)])",
        "(chores:[(name:\"Küche putzen\",due:\"Übermorgen\",owner:Linus),(name:\"洗濯 🧺\",due:\"\u{0}\n\t\",owner:Johannes)])".as_bytes(),
        b"(chores:[(name:\"x\",due:\"y\"),(name:\"x\",due:\"y\",owner:Johannes)])",
        b"not a store",
        b"()",
    ];
    for input in inputs {
        let first = App::new(Some(input));
        let saved = first.save();
        let second = App::new(Some(&saved));
        assert_eq!(second.save(), saved);
        for owner in [Owner::Linus, Owner::Johannes] {
            assert_eq!(triples(&second.chores_of(owner)), triples(&first.chores_of(owner)));
        }
    }
}

#[test]
fn well_formed_bytes_are_saved_as_they_were_loaded() {
    let inputs: Vec<&[u8]> = vec![
        DEFAULT_STORE.as_bytes(),
        b"(chores:[])",
        b"(chores:[(name:\"\\\\\",due:\"\\\"\",owner:Johannes)])",
        "(chores:[(name:\"Müll\",due:\"später\",owner:Linus)])".as_bytes(),
    ];
    for input in inputs {
        assert_eq!(App::new(Some(input)).save(), input.to_vec());
    }
}

#[test]
fn texts_are_read_without_their_escapes() {
    let app = App::new(Some(
        b"(chores:[(name:\"say \\\"hi\\\"\",due:\"C:\\\\tmp\",owner:Linus),(name:\"gr\xc3\xbcn\",due:\"\xe2\x82\xac\",owner:Linus)])",
    ));
    assert_eq!(
        triples(&app.chores_of(Owner::Linus)),
        vec![
            triple("say \"hi\"", "C:\\tmp", Owner::Linus),
            triple("grün", "€", Owner::Linus)
        ]
    );
}

#[test]
fn owners_lists_part_the_store_in_order() {
    let kept = b"(chores:[(name:\"a\",due:\"1\",owner:Johannes),(name:\"b\",due:\"2\",owner:Linus),(name:\"c\",due:\"3\",owner:Johannes),(name:\"b\",due:\"2\",owner:Linus),(name:\"d\",due:\"4\",owner:Linus),(name:\"e\",due:\"5\",owner:Johannes)])";
    let app = App::new(Some(kept));
    let linus = triples(&app.chores_of(Owner::Linus));
    let johannes = triples(&app.chores_of(Owner::Johannes));
    assert_eq!(
        linus,
        vec![
            triple("b", "2", Owner::Linus),
            triple("b", "2", Owner::Linus),
            triple("d", "4", Owner::Linus)
        ]
    );
    assert_eq!(
        johannes,
        vec![
            triple("a", "1", Owner::Johannes),
            triple("c", "3", Owner::Johannes),
            triple("e", "5", Owner::Johannes)
        ]
    );
    assert_eq!(linus.len() + johannes.len(), 6);
    assert!(linus.iter().all(|c| !johannes.contains(c)));
}

#[test]
fn default_page_shows_linus_then_johannes() {
    let page = App::default().update();
    assert_eq!(page.len(), 2);
    assert_eq!(page[0].owner, Owner::Linus);
    assert_eq!(page[0].heading, "Linus");
    assert_eq!(page[0].id, 1);
    assert_eq!(page[0].heading_size, 30);
    assert_eq!(rows(&page[0]), vec![pair("Staubsaugen", "Today"), pair("Bad", "Tomorrow")]);
    assert_eq!(page[1].owner, Owner::Johannes);
    assert_eq!(page[1].heading, "Johannes");
    assert_eq!(page[1].id, 2);
    assert_eq!(page[1].heading_size, 30);
    assert_eq!(rows(&page[1]), vec![pair("Boden", "Tomorrow")]);
}

#[test]
fn showing_the_page_twice_gives_the_same_page() {
    let app = App::default();
    let saved = app.save();
    let first = app.update();
    let second = app.update();
    assert_eq!(first.len(), second.len());
    for (a, b) in first.iter().zip(second.iter()) {
        assert_eq!(a.owner, b.owner);
        assert_eq!(a.heading, b.heading);
        assert_eq!(rows(a), rows(b));
    }
    assert_eq!(app.save(), saved);
}

// Known gap: pressing "done" does not yet mark or remove the chore. When it
// does, this test has to change with it.
#[test]
fn done_button_leaves_the_store_as_it_is() {
    let mut app = App::default();
    let before = app.save();
    for owner in [Owner::Linus, Owner::Johannes] {
        for row in [0usize, 1, 2, 7, usize::MAX] {
            let note = app.done_clicked(owner, row);
            assert_eq!(note, "Done button clicked");
            assert_eq!(app.save(), before);
            assert_eq!(app.chores_of(Owner::Linus).len(), 2);
            assert_eq!(app.chores_of(Owner::Johannes).len(), 1);
        }
    }
}
