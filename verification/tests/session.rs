use tuitui::bird::{bird_count, Bird};
use tuitui::menu::MenuItem;
use tuitui::session::{handle_event, Event, Key, Session};

fn sample(id: u64, name: &str) -> Bird {
    Bird {
        id,
        name: String::from(name),
        species: String::from("Kea"),
        age: 2,
        created_at: 100,
    }
}

fn press(session: &mut Session, birds: &mut Vec<Bird>, c: char) -> MenuItem {
    handle_event(session, birds, &Event::Input(Key::Char(c)))
}

#[test]
fn new_session_starts_on_home() {
    let s = Session::new(0);
    assert_eq!(s.active_view, MenuItem::Home);
    assert_eq!(s.selected, None);
    let s2 = Session::new(3);
    assert_eq!(s2.selected, Some(0));
}

#[test]
fn menu_positions() {
    assert_eq!(MenuItem::Home.index(), 0);
    assert_eq!(MenuItem::Birds.index(), 1);
    assert_eq!(MenuItem::Quit.index(), 0);
    assert_eq!(tuitui::menuitem::MenuItem::Home.index(), 0);
    assert_eq!(tuitui::menuitem::MenuItem::Birds.index(), 1);
}

#[test]
fn selection_wraps_forward() {
    let mut birds = vec![sample(1, "a"), sample(2, "b"), sample(3, "c")];
    let mut session = Session {
        active_view: MenuItem::Birds,
        selected: Some(2),
    };
    let m = handle_event(&mut session, &mut birds, &Event::Input(Key::Down));
    assert_eq!(m, MenuItem::Birds);
    assert_eq!(session.selected, Some(0));
}

#[test]
fn selection_wraps_backward() {
    let mut birds = vec![sample(1, "a"), sample(2, "b"), sample(3, "c")];
    let mut session = Session {
        active_view: MenuItem::Birds,
        selected: Some(0),
    };
    let m = handle_event(&mut session, &mut birds, &Event::Input(Key::Up));
    assert_eq!(m, MenuItem::Birds);
    assert_eq!(session.selected, Some(2));
}

#[test]
fn selection_steps_without_wrapping_in_the_middle() {
    let mut birds = vec![sample(1, "a"), sample(2, "b"), sample(3, "c")];
    let mut session = Session {
        active_view: MenuItem::Birds,
        selected: Some(1),
    };
    handle_event(&mut session, &mut birds, &Event::Input(Key::Down));
    assert_eq!(session.selected, Some(2));
    handle_event(&mut session, &mut birds, &Event::Input(Key::Up));
    assert_eq!(session.selected, Some(1));
}

#[test]
fn empty_collection_movement_is_safe() {
    let mut birds: Vec<Bird> = Vec::new();
    let mut session = Session::new(0);
    let m = handle_event(&mut session, &mut birds, &Event::Input(Key::Down));
    assert_eq!(m, MenuItem::Birds);
    assert_eq!(session.selected, None);
    let m = handle_event(&mut session, &mut birds, &Event::Input(Key::Up));
    assert_eq!(m, MenuItem::Birds);
    assert_eq!(session.selected, None);
    assert_eq!(bird_count(&birds), 0);
}

#[test]
fn tick_changes_nothing() {
    let mut birds = vec![sample(1, "a"), sample(2, "b")];
    let mut session = Session {
        active_view: MenuItem::Birds,
        selected: Some(1),
    };
    let m = handle_event(&mut session, &mut birds, &Event::Tick);
    assert_eq!(m, MenuItem::NoChange);
    assert_eq!(session.active_view, MenuItem::Birds);
    assert_eq!(session.selected, Some(1));
    assert_eq!(bird_count(&birds), 2);
}

#[test]
fn unbound_keys_change_nothing() {
    let mut birds = vec![sample(1, "a")];
    let mut session = Session {
        active_view: MenuItem::Home,
        selected: Some(0),
    };
    for c in ['x', 'z', '1', ' '] {
        let m = handle_event(&mut session, &mut birds, &Event::Input(Key::Char(c)));
        assert_eq!(m, MenuItem::NoChange);
        assert_eq!(session.active_view, MenuItem::Home);
        assert_eq!(session.selected, Some(0));
    }
    let m = handle_event(&mut session, &mut birds, &Event::Input(Key::Other));
    assert_eq!(m, MenuItem::NoChange);
}

#[test]
fn view_switching_keys() {
    let mut birds: Vec<Bird> = Vec::new();
    let mut session = Session::new(0);
    assert_eq!(press(&mut session, &mut birds, 'b'), MenuItem::Birds);
    assert_eq!(session.active_view, MenuItem::Birds);
    assert_eq!(press(&mut session, &mut birds, 'h'), MenuItem::Home);
    assert_eq!(session.active_view, MenuItem::Home);
}

#[test]
fn delete_clamps_selection_downward() {
    let mut birds = vec![sample(1, "a"), sample(2, "b"), sample(3, "c")];
    let mut session = Session {
        active_view: MenuItem::Birds,
        selected: Some(2),
    };
    handle_event(&mut session, &mut birds, &Event::Input(Key::Char('d')));
    assert_eq!(bird_count(&birds), 2);
    assert_eq!(session.selected, Some(1));
    assert_eq!(birds[0].name, "a");
    assert_eq!(birds[1].name, "b");
}

#[test]
fn delete_last_record_unsets_selection() {
    let mut birds = vec![sample(1, "a")];
    let mut session = Session {
        active_view: MenuItem::Birds,
        selected: Some(0),
    };
    handle_event(&mut session, &mut birds, &Event::Input(Key::Char('d')));
    assert_eq!(bird_count(&birds), 0);
    assert_eq!(session.selected, None);
}

#[test]
fn end_to_end_scenario() {
    // From an empty store: three adds, one delete at index 1, then quit.
    let mut birds: Vec<Bird> = Vec::new();
    let mut session = Session::new(0);

    for _ in 0..3 {
        let m = handle_event(&mut session, &mut birds, &Event::Input(Key::Char('a')));
        assert_eq!(m, MenuItem::Birds);
    }
    assert_eq!(bird_count(&birds), 3);
    assert_eq!(session.selected, Some(0));
    let first_name = birds[0].name.clone();
    let third_name = birds[2].name.clone();

    // Move the selection to index 1 and delete: the second record goes.
    handle_event(&mut session, &mut birds, &Event::Input(Key::Down));
    assert_eq!(session.selected, Some(1));
    handle_event(&mut session, &mut birds, &Event::Input(Key::Char('d')));
    assert_eq!(bird_count(&birds), 2);
    assert_eq!(birds[0].name, first_name);
    assert_eq!(birds[1].name, third_name);
    assert_eq!(session.selected, Some(0));

    let m = handle_event(&mut session, &mut birds, &Event::Input(Key::Char('q')));
    assert_eq!(m, MenuItem::Quit);
    assert_eq!(session.active_view, MenuItem::Quit);
}

#[test]
fn tick_interleaving_leaves_final_state_alone() {
    // The same input events, with and without interleaved ticks, end in
    // the same session state.
    let inputs = ['b', 'x', 'h', 'b'];

    let mut birds_a = vec![sample(1, "a"), sample(2, "b")];
    let mut session_a = Session {
        active_view: MenuItem::Home,
        selected: Some(0),
    };
    for c in inputs {
        handle_event(&mut session_a, &mut birds_a, &Event::Tick);
        handle_event(&mut session_a, &mut birds_a, &Event::Input(Key::Char(c)));
        handle_event(&mut session_a, &mut birds_a, &Event::Tick);
    }
    handle_event(&mut session_a, &mut birds_a, &Event::Input(Key::Down));

    let mut birds_b = vec![sample(1, "a"), sample(2, "b")];
    let mut session_b = Session {
        active_view: MenuItem::Home,
        selected: Some(0),
    };
    for c in inputs {
        handle_event(&mut session_b, &mut birds_b, &Event::Input(Key::Char(c)));
    }
    handle_event(&mut session_b, &mut birds_b, &Event::Input(Key::Down));

    assert_eq!(session_a.active_view, session_b.active_view);
    assert_eq!(session_a.selected, session_b.selected);
    assert_eq!(bird_count(&birds_a), bird_count(&birds_b));
}
