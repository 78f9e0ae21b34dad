use antlr_gen::atn::{ATNFragment, State, StateRef, Transition};
use antlr_gen::codeset::CodeSet;
use antlr_gen::text::decimal_string;
use antlr_gen::util::{capitalize, Arena, HashArc};
use antlr_gen::langs::uppercase;
use antlr_gen::ir::{AltIR, AntlrIR, ElementIR, RuleIR};
use antlr_gen::symbols::SymbolTable;

#[test]
fn state_ref_offset_moves_the_index() {
    let mut s = StateRef(3);
    s.offset(4);
    assert_eq!(s.0, 7);
}

#[test]
fn transition_offset_moves_both_ends() {
    let mut t = Transition::Atom { source: StateRef(1), target: StateRef(2), input: 97 };
    t.offset(10);
    assert_eq!(t.source().0, 11);
    assert_eq!(t.target().0, 12);
    assert!(!t.is_epsilon());
    let e = Transition::Epsilon { source: StateRef(0), target: StateRef(5) };
    assert!(e.is_epsilon());
    assert_eq!(e.target().0, 5);
}

#[test]
fn new_state_has_no_transitions() {
    assert!(State::new().transitions().is_empty());
}

#[test]
fn appended_fragment_is_reached_by_epsilon() {
    let mut a = ATNFragment::new();
    a.push_state(State::new());
    let mut b = ATNFragment::new();
    b.push_transition(Transition::Atom { source: StateRef(0), target: StateRef(0), input: 98 });
    a.append_fragment(StateRef(1), b);
    // `a` had two states and no transitions; `b` lands at state 2.
    let closure = a.closure(StateRef(1), 98);
    assert!(closure.is_empty());
    let eps = a.epsilon_closure(StateRef(0));
    assert!(eps.is_empty());
}

#[test]
fn fragment_offset_keeps_an_empty_closure() {
    let mut f = ATNFragment::new();
    f.push_transition(Transition::Epsilon { source: StateRef(0), target: StateRef(0) });
    f.offset(2, 3);
    assert!(f.epsilon_closure(StateRef(2)).is_empty());
}

#[test]
fn code_set_keeps_codes_sorted_and_unique() {
    let mut s = CodeSet::new();
    s.insert(5);
    s.insert(1);
    s.insert(5);
    s.insert(3);
    assert_eq!(s.codes(), vec![1, 3, 5]);
    assert!(s.contains(3));
    assert!(!s.contains(4));
    assert_eq!(s.duplicate().codes(), vec![1, 3, 5]);
}

#[test]
fn arena_push_fills_the_first_free_slot() {
    let mut arena: Arena<&str> = Arena::new();
    assert_eq!(arena.push("a"), 0);
    assert_eq!(arena.push("b"), 1);
    arena.reserve(4);
    arena.mask(2);
    // slot 2 is reserved, so the next push lands in slot 3
    assert_eq!(arena.push_index_landing_location(0), 3);
    assert_eq!(arena.push("c"), 3);
    arena.set(2, "reserved");
    assert_eq!(arena.get(2), Some(&"reserved"));
    assert_eq!(arena.get(3), Some(&"c"));
    assert_eq!(arena.get(7), None);
    assert_eq!(arena.finalize(), vec!["a", "b", "reserved", "c"]);
}

#[test]
fn arena_push_index_starts_looking_at_the_index() {
    let mut arena: Arena<u32> = Arena::new();
    assert_eq!(arena.push_index(5, 50), 5);
    assert_eq!(arena.push_index(5, 60), 6);
    assert_eq!(arena.get(5), Some(&50));
    assert_eq!(arena.get(0), None);
    // slot 0 is free, so nothing is collected
    assert!(arena.finalize().is_empty());
}

#[test]
fn arena_get_after_set_and_others_kept() {
    let mut arena: Arena<u8> = Arena::new();
    arena.reserve(3);
    arena.set(1, 9);
    arena.set(0, 7);
    assert_eq!(arena.get(1), Some(&9));
    assert_eq!(arena.get(0), Some(&7));
    assert_eq!(arena.get(2), None);
    // setting past the end does nothing
    arena.set(10, 1);
    assert_eq!(arena.get(10), None);
}

#[test]
fn hash_arc_gives_back_its_value() {
    let h = HashArc::new(42u32);
    assert_eq!(*h.get(), 42);
}

#[test]
fn capitalize_first_character() {
    assert_eq!(capitalize("grammarSpec".to_string()), "GrammarSpec");
    assert_eq!(capitalize(String::new()), "");
}

#[test]
fn uppercase_whole_string() {
    assert_eq!(uppercase("abc_Def".to_string()), "ABC_DEF");
}

#[test]
fn decimal_notation() {
    assert_eq!(decimal_string(0), "0");
    assert_eq!(decimal_string(7), "7");
    assert_eq!(decimal_string(1204), "1204");
    assert_eq!(decimal_string(usize::MAX), usize::MAX.to_string());
}

#[test]
fn alternatives_are_found_by_rule_and_position() {
    let alt = AltIR::with_parts(1, Some(0), None, vec![ElementIR::TokenAtom { id: 2, suffix: None }], None);
    let rule = RuleIR::with_parts(
        0,
        false,
        "r".to_string(),
        false,
        vec![HashArc::new(AltIR::with_parts(0, Some(0), None, vec![], None)), HashArc::new(alt)],
    );
    let ir = AntlrIR::from_parts(vec![rule], vec![], SymbolTable::empty());
    assert_eq!(ir.get_rule_alt(0, 1).unwrap().get().index(), 1);
    assert_eq!(ir.get_alt(0, 1).unwrap().get().elements().len(), 1);
    assert!(ir.get_rule_alt(0, 2).is_none());
    assert!(ir.get_alt(1, 0).is_none());
}

#[test]
fn pushes_land_on_the_next_free_slots() {
    let mut a: Arena<u32> = Arena::new();
    assert_eq!(a.push(10), 0);
    assert_eq!(a.push(20), 1);
    assert_eq!(a.push_index_landing_location(0), 2);
    assert_eq!(a.push_index_landing_location(5), 5);
    assert_eq!(a.get(0), Some(&10));
    assert_eq!(a.get(1), Some(&20));
    assert_eq!(a.get(2), None);
    assert_eq!(a.get(5), None);
}

#[test]
fn capitalize_uses_title_case() {
    assert_eq!(capitalize("".to_string()), "");
    assert_eq!(capitalize("grammarSpec".to_string()), "GrammarSpec");
    assert_eq!(capitalize("\u{01C6}emal".to_string()), "\u{01C5}emal");
    assert_eq!(capitalize("\u{01C4}".to_string()), "\u{01C5}");
    assert_eq!(capitalize("\u{00DF}a".to_string()), "Ssa");
    assert_eq!(capitalize("\u{FB01}x".to_string()), "Fix");
    assert_eq!(capitalize("\u{FB03}".to_string()), "Ffi");
    assert_eq!(capitalize("\u{1FB3}".to_string()), "\u{1FBC}");
    assert_eq!(capitalize("\u{1F80}".to_string()), "\u{1F88}");
    assert_eq!(capitalize("\u{1FB7}".to_string()), "\u{0391}\u{0342}\u{0345}");
    assert_eq!(capitalize("\u{10D0}\u{10D1}".to_string()), "\u{10D0}\u{10D1}");
    assert_eq!(capitalize("\u{0587}".to_string()), "\u{0535}\u{0582}");
    assert_eq!(capitalize("\u{00E9}t\u{00E9}".to_string()), "\u{00C9}t\u{00E9}");
}
