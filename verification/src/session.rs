//! The session controller: a single-threaded state machine over the merged
//! event stream.
//!
//! Two background producers (a periodic tick and the keyboard reader) feed
//! one ordered channel; the caller pulls one event at a time and hands it
//! to [`handle_event`].  All mutable session state — the active view and
//! the selection — lives here and is touched nowhere else.  Ticks carry no
//! content: they only prompt a redraw, and [`lemma_run_ignores_ticks`]
//! proves that dropping them from any event stream leaves the final state
//! untouched.

use vstd::prelude::*;
use vstd::pervasive::arbitrary;

use crate::bird::{Bird, add_random_bird, bird_count, fresh_bird_ok, remove_bird};
use crate::menu::MenuItem;

verus! {

/// A decoded key press, reduced to what the controller reacts to.
#[derive(Copy, Clone, Debug, PartialEq, Eq, Structural)]
pub enum Key {
    Char(char),
    Up,
    Down,
    Other,
}

/// One element of the merged event stream.
#[derive(Copy, Clone, Debug, PartialEq, Eq, Structural)]
pub enum Event {
    Input(Key),
    Tick,
}

/// The transient session state: the active view and the selection.  The
/// selection is set exactly while the collection is non-empty.
pub struct Session {
    pub active_view: MenuItem,
    pub selected: Option<usize>,
}

/// The whole state a step acts on, as one mathematical value.
#[verifier::ext_equal]
pub struct StateView {
    pub view: MenuItem,
    pub selected: Option<usize>,
    pub birds: Seq<Bird>,
}

impl Session {
    /// The selection is unset on an empty collection and a valid position
    /// otherwise, and the active view is a real view.
    pub open spec fn wf(self, birds: Seq<Bird>) -> bool {
        &&& match self.selected {
            Option::None => birds.len() == 0,
            Option::Some(i) => i < birds.len(),
        }
        &&& self.active_view.is_view()
    }

    pub open spec fn state(self, birds: Seq<Bird>) -> StateView {
        StateView { view: self.active_view, selected: self.selected, birds }
    }

    /// The state at startup: the home view, with the first record selected
    /// when there is one.
    pub fn new(count: usize) -> (s: Session)
        ensures
            s.active_view == MenuItem::Home,
            s.selected == if count == 0 {
                Option::<usize>::None
            } else {
                Option::Some(0usize)
            },
    {
        Session {
            active_view: MenuItem::Home,
            selected: if count == 0 {
                None
            } else {
                Some(0)
            },
        }
    }
}

/// The view a given event asks for; `NoChange` for ticks and unbound keys.
/// The requested view depends on the event alone, never on the current
/// state.
pub open spec fn next_view(ev: Event) -> MenuItem {
    match ev {
        Event::Tick => MenuItem::NoChange,
        Event::Input(k) => match k {
            Key::Char(c) => if c == 'q' {
                MenuItem::Quit
            } else if c == 'h' {
                MenuItem::Home
            } else if c == 'b' || c == 'a' || c == 'd' {
                MenuItem::Birds
            } else {
                MenuItem::NoChange
            },
            Key::Up => MenuItem::Birds,
            Key::Down => MenuItem::Birds,
            Key::Other => MenuItem::NoChange,
        },
    }
}

/// Selection after one step forward: wraps past the end, and moves not at
/// all while the collection is empty.
pub open spec fn sel_down(sel: Option<usize>, n: nat) -> Option<usize> {
    match sel {
        Option::None => Option::None,
        Option::Some(i) => if n == 0 {
            Option::None
        } else if i + 1 >= n {
            Option::Some(0usize)
        } else {
            Option::Some((i + 1) as usize)
        },
    }
}

/// Selection after one step backward: wraps past the start, and moves not
/// at all while the collection is empty.
pub open spec fn sel_up(sel: Option<usize>, n: nat) -> Option<usize> {
    match sel {
        Option::None => Option::None,
        Option::Some(i) => if n == 0 {
            Option::None
        } else if i > 0 {
            Option::Some((i - 1) as usize)
        } else {
            Option::Some((n - 1) as usize)
        },
    }
}

/// Selection after a deletion at `i`: kept near its old neighbourhood by
/// stepping down once when it was above the start, and unset when the last
/// record went away.
pub open spec fn sel_after_remove(i: usize, remaining: nat) -> Option<usize> {
    if remaining == 0 {
        Option::None
    } else if i > 0 {
        Option::Some((i - 1) as usize)
    } else {
        Option::Some(0usize)
    }
}

/// The transition relation of the controller, one event at a time.
///
/// `fresh` stands for the record a generator would synthesize; only the
/// add key consumes it, so the function is total in it and every other
/// event's outcome is independent of it.
pub open spec fn step(s: StateView, ev: Event, fresh: Bird) -> StateView {
    let v = if next_view(ev) is NoChange {
        s.view
    } else {
        next_view(ev)
    };
    match ev {
        Event::Input(k) => match k {
            Key::Char(c) => if c == 'a' {
                StateView {
                    view: v,
                    birds: s.birds.push(fresh),
                    selected: if s.selected is None {
                        Option::Some(0usize)
                    } else {
                        s.selected
                    },
                }
            } else if c == 'd' {
                match s.selected {
                    Option::Some(i) => {
                        let birds2 = if i < s.birds.len() {
                            s.birds.remove(i as int)
                        } else {
                            s.birds
                        };
                        StateView {
                            view: v,
                            birds: birds2,
                            selected: sel_after_remove(i, birds2.len()),
                        }
                    },
                    Option::None => StateView { view: v, selected: Option::None, birds: s.birds },
                }
            } else {
                StateView { view: v, selected: s.selected, birds: s.birds }
            },
            Key::Down => StateView {
                view: v,
                selected: sel_down(s.selected, s.birds.len()),
                birds: s.birds,
            },
            Key::Up => StateView {
                view: v,
                selected: sel_up(s.selected, s.birds.len()),
                birds: s.birds,
            },
            Key::Other => StateView { view: v, selected: s.selected, birds: s.birds },
        },
        Event::Tick => StateView { view: v, selected: s.selected, birds: s.birds },
    }
}

/// Apply one event to the session and the collection.
///
/// The result is the view the event asked for; the caller adopts it when
/// it is not `NoChange` and stops on `Quit`.  The new state is exactly one
/// [`step`]: for the add key with some well-formed fresh record, and for
/// every other event with any record at all.
pub fn handle_event(session: &mut Session, birds: &mut Vec<Bird>, event: &Event) -> (m: MenuItem)
    requires
        old(session).wf(old(birds)@),
    ensures
        final(session).wf(final(birds)@),
        m == next_view(*event),
        *event is Tick ==> *final(session) == *old(session) && final(birds)@ == old(birds)@,
        *event matches Event::Input(Key::Char('a')) ==> exists|fresh: Bird|
            #[trigger] fresh_bird_ok(fresh@) && final(session).state(final(birds)@) == step(
                old(session).state(old(birds)@),
                *event,
                fresh,
            ),
        !(*event matches Event::Input(Key::Char('a'))) ==> forall|fresh: Bird|
            final(session).state(final(birds)@) == #[trigger] step(
                old(session).state(old(birds)@),
                *event,
                fresh,
            ),
{
    let ghost s0 = old(session).state(old(birds)@);
    match event {
        Event::Input(Key::Char('q')) => {
            session.active_view = MenuItem::Quit;
            proof {
                assert forall|fresh: Bird|
                    session.state(birds@) == #[trigger] step(s0, *event, fresh) by {
                    assert(session.state(birds@) =~= step(s0, *event, fresh));
                }
            }
            MenuItem::Quit
        },
        Event::Input(Key::Char('h')) => {
            session.active_view = MenuItem::Home;
            proof {
                assert forall|fresh: Bird|
                    session.state(birds@) == #[trigger] step(s0, *event, fresh) by {
                    assert(session.state(birds@) =~= step(s0, *event, fresh));
                }
            }
            MenuItem::Home
        },
        Event::Input(Key::Char('b')) => {
            session.active_view = MenuItem::Birds;
            proof {
                assert forall|fresh: Bird|
                    session.state(birds@) == #[trigger] step(s0, *event, fresh) by {
                    assert(session.state(birds@) =~= step(s0, *event, fresh));
                }
            }
            MenuItem::Birds
        },
        Event::Input(Key::Char('a')) => {
            add_random_bird(birds);
            if session.selected.is_none() {
                session.selected = Some(0);
            }
            session.active_view = MenuItem::Birds;
            proof {
                let fresh = birds@.last();
                assert(fresh_bird_ok(fresh@));
                assert(session.state(birds@) =~= step(s0, *event, fresh));
            }
            MenuItem::Birds
        },
        Event::Input(Key::Char('d')) => {
            match session.selected {
                Some(i) => {
                    remove_bird(birds, i);
                    let n = bird_count(birds);
                    session.selected = if n == 0 {
                        None
                    } else if i > 0 {
                        Some(i - 1)
                    } else {
                        Some(0)
                    };
                },
                None => {},
            }
            session.active_view = MenuItem::Birds;
            proof {
                assert forall|fresh: Bird|
                    session.state(birds@) == #[trigger] step(s0, *event, fresh) by {
                    assert(session.state(birds@) =~= step(s0, *event, fresh));
                }
            }
            MenuItem::Birds
        },
        Event::Input(Key::Down) => {
            let n = bird_count(birds);
            match session.selected {
                Some(i) => {
                    session.selected = if n == 0 {
                        None
                    } else if i + 1 >= n {
                        Some(0)
                    } else {
                        Some(i + 1)
                    };
                },
                None => {},
            }
            session.active_view = MenuItem::Birds;
            proof {
                assert forall|fresh: Bird|
                    session.state(birds@) == #[trigger] step(s0, *event, fresh) by {
                    assert(session.state(birds@) =~= step(s0, *event, fresh));
                }
            }
            MenuItem::Birds
        },
        Event::Input(Key::Up) => {
            let n = bird_count(birds);
            match session.selected {
                Some(i) => {
                    session.selected = if n == 0 {
                        None
                    } else if i > 0 {
                        Some(i - 1)
                    } else {
                        Some(n - 1)
                    };
                },
                None => {},
            }
            session.active_view = MenuItem::Birds;
            proof {
                assert forall|fresh: Bird|
                    session.state(birds@) == #[trigger] step(s0, *event, fresh) by {
                    assert(session.state(birds@) =~= step(s0, *event, fresh));
                }
            }
            MenuItem::Birds
        },
        _ => {
            proof {
                assert forall|fresh: Bird|
                    session.state(birds@) == #[trigger] step(s0, *event, fresh) by {
                    assert(session.state(birds@) =~= step(s0, *event, fresh));
                }
            }
            MenuItem::NoChange
        },
    }
}

/// Whether an event draws on the supply of fresh records: only the add
/// key does.
pub open spec fn consumes_fresh(ev: Event) -> bool {
    ev matches Event::Input(Key::Char('a'))
}

/// The state after a whole event stream, stepping from the front.
///
/// `fresh` is the supply of records the generator would hand out, consumed
/// one per add key; every other event leaves the supply untouched.
pub open spec fn run(s: StateView, evs: Seq<Event>, fresh: Seq<Bird>) -> StateView
    decreases evs.len(),
{
    if evs.len() == 0 {
        s
    } else {
        let head = if fresh.len() > 0 {
            fresh[0]
        } else {
            arbitrary::<Bird>()
        };
        let s1 = step(s, evs[0], head);
        let fresh1 = if consumes_fresh(evs[0]) && fresh.len() > 0 {
            fresh.skip(1)
        } else {
            fresh
        };
        run(s1, evs.skip(1), fresh1)
    }
}

/// A tick changes nothing: it is a pure redraw signal.
pub proof fn lemma_tick_is_noop(s: StateView, fresh: Bird)
    ensures
        step(s, Event::Tick, fresh) == s,
{
    assert(step(s, Event::Tick, fresh) =~= s);
}

/// Interleaving ticks into an event stream never changes the final state:
/// running any stream is the same as running it with every tick dropped,
/// against the same supply of fresh records.
pub proof fn lemma_run_ignores_ticks(s: StateView, evs: Seq<Event>, fresh: Seq<Bird>)
    ensures
        run(s, evs, fresh) == run(s, evs.filter(|e: Event| !(e is Tick)), fresh),
    decreases evs.len(),
{
    reveal_with_fuel(Seq::<_>::filter, 2);
    let pred = |e: Event| !(e is Tick);
    if evs.len() == 0 {
        assert(evs.filter(pred) =~= evs);
    } else {
        let e0 = evs[0];
        let rest = evs.skip(1);
        assert(evs =~= seq![e0] + rest);
        Seq::<Event>::filter_distributes_over_add(seq![e0], rest, pred);
        assert(seq![e0].drop_last() =~= Seq::<Event>::empty());
        assert(Seq::<Event>::empty().filter(pred) =~= Seq::<Event>::empty());
        let head = if fresh.len() > 0 {
            fresh[0]
        } else {
            arbitrary::<Bird>()
        };
        if e0 is Tick {
            assert(seq![e0].filter(pred) =~= Seq::<Event>::empty());
            assert(evs.filter(pred) =~= rest.filter(pred));
            lemma_tick_is_noop(s, head);
            lemma_run_ignores_ticks(s, rest, fresh);
        } else {
            assert(seq![e0].filter(pred) =~= seq![e0]);
            let filtered = evs.filter(pred);
            assert(filtered =~= seq![e0] + rest.filter(pred));
            assert(filtered[0] == e0);
            assert(filtered.skip(1) =~= rest.filter(pred));
            let s1 = step(s, e0, head);
            let fresh1 = if consumes_fresh(e0) && fresh.len() > 0 {
                fresh.skip(1)
            } else {
                fresh
            };
            lemma_run_ignores_ticks(s1, rest, fresh1);
        }
    }
}

/// Selection wraparound, forward: with the last record selected, one step
/// down lands on the first.
pub proof fn lemma_selection_wraps_down(s: StateView, fresh: Bird)
    requires
        0 < s.birds.len() <= usize::MAX,
        s.selected == Option::Some((s.birds.len() - 1) as usize),
    ensures
        step(s, Event::Input(Key::Down), fresh).selected == Option::Some(0usize),
        step(s, Event::Input(Key::Down), fresh).birds == s.birds,
{
}

/// Selection wraparound, backward: with the first record selected, one
/// step up lands on the last.
pub proof fn lemma_selection_wraps_up(s: StateView, fresh: Bird)
    requires
        0 < s.birds.len() <= usize::MAX,
        s.selected == Option::Some(0usize),
    ensures
        step(s, Event::Input(Key::Up), fresh).selected == Option::Some(
            (s.birds.len() - 1) as usize,
        ),
        step(s, Event::Input(Key::Up), fresh).birds == s.birds,
{
}

/// On an empty collection the movement keys leave the selection unset and
/// the collection untouched.
pub proof fn lemma_empty_selection_safe(s: StateView, k: Key, fresh: Bird)
    requires
        s.birds.len() == 0,
        s.selected is None,
        k is Up || k is Down,
    ensures
        step(s, Event::Input(k), fresh).selected is None,
        step(s, Event::Input(k), fresh).birds == s.birds,
{
}

} // verus!
