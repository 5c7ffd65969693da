use tuitui::bird::{add_random_bird, bird_count, remove_bird, selected_bird, Bird};
use tuitui::database::{load_db, parse_db, render_db, Error};

fn sample(id: u64, name: &str, species: &str, age: u64, created_at: u64) -> Bird {
    Bird {
        id,
        name: String::from(name),
        species: String::from(species),
        age,
        created_at,
    }
}

#[test]
fn render_empty_collection() {
    let birds: Vec<Bird> = Vec::new();
    assert_eq!(render_db(&birds), "[]");
}

#[test]
fn render_known_record_exactly() {
    let birds = vec![sample(7, "Abc", "Kea", 3, 1000)];
    assert_eq!(
        render_db(&birds),
        "[{\"id\":7,\"name\":\"Abc\",\"species\":\"Kea\",\"age\":3,\"created_at\":1000}]"
    );
}

#[test]
fn render_two_records_exactly() {
    let birds = vec![
        sample(0, "a", "Moa", 1, 0),
        sample(42, "bCd3", "Fantail", 14, 1234567890),
    ];
    assert_eq!(
        render_db(&birds),
        "[{\"id\":0,\"name\":\"a\",\"species\":\"Moa\",\"age\":1,\"created_at\":0},\
         {\"id\":42,\"name\":\"bCd3\",\"species\":\"Fantail\",\"age\":14,\"created_at\":1234567890}]"
    );
}

#[test]
fn round_trip_parses_back() {
    let birds = vec![
        sample(1, "First", "Kea", 2, 11),
        sample(2, "Second", "Kiwi", 3, 22),
        sample(3, "Third", "Moa", 4, 33),
    ];
    let content = render_db(&birds);
    let parsed = parse_db(&content).expect("rendered content must parse");
    assert_eq!(parsed.len(), 3);
    for (a, b) in birds.iter().zip(parsed.iter()) {
        assert_eq!(a.id, b.id);
        assert_eq!(a.name, b.name);
        assert_eq!(a.species, b.species);
        assert_eq!(a.age, b.age);
        assert_eq!(a.created_at, b.created_at);
    }
    // Saving what was loaded reproduces the file content exactly.
    assert_eq!(render_db(&parsed), content);
}

#[test]
fn round_trip_largest_id() {
    let birds = vec![sample(u64::MAX, "x", "Kiwi", 1, u64::MAX)];
    let content = render_db(&birds);
    let parsed = parse_db(&content).expect("largest id must round-trip");
    assert_eq!(parsed[0].id, u64::MAX);
    assert_eq!(parsed[0].created_at, u64::MAX);
    assert_eq!(render_db(&parsed), content);
}

#[test]
fn corrupt_content_reads_as_empty() {
    assert_eq!(load_db("").len(), 0);
    assert_eq!(load_db("not a collection").len(), 0);
    assert_eq!(load_db("[").len(), 0);
    assert_eq!(load_db("[]trailing").len(), 0);
    assert_eq!(load_db("[{\"id\":7]").len(), 0);
    assert_eq!(load_db("{\"id\":7}").len(), 0);
    assert_eq!(load_db("[{\"id\":7,\"name\":\"x\",\"species\":\"Kea\",\"age\":3}]").len(), 0);
}

#[test]
fn corrupt_numbers_read_as_empty() {
    // Leading zero, overflowing value, missing digits: all malformed.
    assert_eq!(
        load_db("[{\"id\":007,\"name\":\"x\",\"species\":\"Kea\",\"age\":3,\"created_at\":1}]").len(),
        0
    );
    assert_eq!(
        load_db(
            "[{\"id\":18446744073709551616,\"name\":\"x\",\"species\":\"Kea\",\"age\":3,\"created_at\":1}]"
        )
        .len(),
        0
    );
    assert_eq!(
        load_db("[{\"id\":,\"name\":\"x\",\"species\":\"Kea\",\"age\":3,\"created_at\":1}]").len(),
        0
    );
}

#[test]
fn escaped_strings_read_as_empty() {
    // The stored form carries strings verbatim; an escape makes the whole
    // content malformed, which reads as empty rather than failing.
    assert_eq!(
        load_db("[{\"id\":1,\"name\":\"a\\\\b\",\"species\":\"Kea\",\"age\":3,\"created_at\":1}]")
            .len(),
        0
    );
}

#[test]
fn well_formed_content_loads() {
    let loaded =
        load_db("[{\"id\":5,\"name\":\"Tui1\",\"species\":\"Moa\",\"age\":9,\"created_at\":77}]");
    assert_eq!(loaded.len(), 1);
    assert_eq!(loaded[0].id, 5);
    assert_eq!(loaded[0].name, "Tui1");
    assert_eq!(loaded[0].species, "Moa");
    assert_eq!(loaded[0].age, 9);
    assert_eq!(loaded[0].created_at, 77);
}

#[test]
fn add_random_increases_count_and_obeys_bounds() {
    let mut birds = vec![sample(1, "First", "Kea", 2, 11)];
    add_random_bird(&mut birds);
    assert_eq!(bird_count(&birds), 2);
    let fresh = &birds[1];
    assert!(fresh.id < 9999999);
    assert_eq!(fresh.name.len(), 10);
    assert!(fresh.name.chars().all(|c| c.is_ascii_alphanumeric()));
    assert!(
        fresh.species == "Kea"
            || fresh.species == "Kiwi"
            || fresh.species == "Fantail"
            || fresh.species == "Moa"
    );
    assert!(fresh.age >= 1 && fresh.age < 15);
    // The first record is untouched.
    assert_eq!(birds[0].name, "First");
}

#[test]
fn added_records_round_trip() {
    let mut birds: Vec<Bird> = Vec::new();
    add_random_bird(&mut birds);
    add_random_bird(&mut birds);
    add_random_bird(&mut birds);
    let content = render_db(&birds);
    let loaded = load_db(&content);
    assert_eq!(loaded.len(), 3);
    assert_eq!(render_db(&loaded), content);
}

#[test]
fn remove_valid_index_drops_exactly_that_record() {
    let mut birds = vec![
        sample(1, "First", "Kea", 2, 11),
        sample(2, "Second", "Kiwi", 3, 22),
        sample(3, "Third", "Moa", 4, 33),
    ];
    remove_bird(&mut birds, 1);
    assert_eq!(bird_count(&birds), 2);
    assert_eq!(birds[0].name, "First");
    assert_eq!(birds[1].name, "Third");
}

#[test]
fn remove_stale_index_is_a_no_op() {
    let mut birds = vec![sample(1, "Only", "Kea", 2, 11)];
    remove_bird(&mut birds, 1);
    assert_eq!(bird_count(&birds), 1);
    remove_bird(&mut birds, 100);
    assert_eq!(bird_count(&birds), 1);
    assert_eq!(birds[0].name, "Only");
}

#[test]
fn selected_bird_is_positional() {
    let birds = vec![sample(1, "First", "Kea", 2, 11), sample(2, "Second", "Kiwi", 3, 22)];
    let picked = selected_bird(&birds, 1).expect("index 1 is valid");
    assert_eq!(picked.name, "Second");
    assert!(selected_bird(&birds, 2).is_none());
}

#[test]
fn error_descriptions() {
    assert_eq!(Error::ReadDBError.describe(), "error reading the DB file");
    assert_eq!(Error::ParseDBError.describe(), "error parsing the DB file");
    assert_eq!(Error::ReadDBError, Error::ReadDBError);
    assert_ne!(Error::ReadDBError, Error::ParseDBError);
}
