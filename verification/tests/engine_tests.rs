use madenon::engine::{step, EngineState, ImageSlot, RuntimeError, StepResult};
use madenon::script::VarOrConst;

fn var(name: &str) -> VarOrConst {
    VarOrConst { is_ref: true, name: name.to_string(), index: None }
}

#[test]
fn parse_and_step_one_text() {
    let mut st = EngineState::new("game", "text \"Yuichi\" \"Hello, world.\"").unwrap();
    assert_eq!(
        step(&mut st).unwrap(),
        StepResult::Text(Some("Yuichi".to_string()), "Hello, world.".to_string())
    );
    assert_eq!(step(&mut st).unwrap(), StepResult::Exit);
}

#[test]
fn empty_script_exits_immediately() {
    let mut st = EngineState::new("game", "").unwrap();
    assert_eq!(step(&mut st).unwrap(), StepResult::Exit);
    assert_eq!(step(&mut st).unwrap(), StepResult::Exit);
}

#[test]
fn branch_taken() {
    let src = "setvar x 5\nif $x == 5\ntext \"Taken.\"\nfi\ntext \"After.\"";
    let mut st = EngineState::new("game", src).unwrap();
    assert_eq!(step(&mut st).unwrap(), StepResult::Continue);
    assert_eq!(step(&mut st).unwrap(), StepResult::Continue);
    assert_eq!(step(&mut st).unwrap(), StepResult::Text(None, "Taken.".to_string()));
    assert_eq!(step(&mut st).unwrap(), StepResult::Text(None, "After.".to_string()));
    assert_eq!(step(&mut st).unwrap(), StepResult::Exit);
}

#[test]
fn branch_not_taken() {
    let src = "setvar x 5\nif $x == 6\ntext \"Taken.\"\nfi\ntext \"After.\"";
    let mut st = EngineState::new("game", src).unwrap();
    assert_eq!(step(&mut st).unwrap(), StepResult::Continue);
    assert_eq!(step(&mut st).unwrap(), StepResult::Continue);
    assert_eq!(step(&mut st).unwrap(), StepResult::Text(None, "After.".to_string()));
    assert_eq!(step(&mut st).unwrap(), StepResult::Exit);
}

#[test]
fn branch_comparisons_are_lexicographic() {
    let src = "setvar x 10\nif $x < 9\ntext \"Taken.\"\nfi\ntext \"After.\"";
    let mut st = EngineState::new("game", src).unwrap();
    assert_eq!(step(&mut st).unwrap(), StepResult::Continue);
    assert_eq!(step(&mut st).unwrap(), StepResult::Continue);
    assert_eq!(step(&mut st).unwrap(), StepResult::Text(None, "Taken.".to_string()));
}

#[test]
fn choice_then_default_selected() {
    let src = "choice A|B|C\ntext still here";
    let mut st = EngineState::new("game", src).unwrap();
    assert_eq!(
        step(&mut st).unwrap(),
        StepResult::Choice(vec!["A".to_string(), "B".to_string(), "C".to_string()])
    );
    assert_eq!(st.get_var(&var("selected")).unwrap(), "1");
    assert_eq!(step(&mut st).unwrap(), StepResult::Text(None, "still here".to_string()));
}

#[test]
fn single_alternative_still_defaults_selected() {
    let mut st = EngineState::new("game", "choice Only").unwrap();
    assert_eq!(step(&mut st).unwrap(), StepResult::Choice(vec!["Only".to_string()]));
    assert_eq!(st.get_var(&var("selected")).unwrap(), "1");
}

#[test]
fn set_choice_records_one_based_index() {
    let mut st = EngineState::new("game", "choice A|B|C\ncleartext").unwrap();
    assert!(matches!(step(&mut st).unwrap(), StepResult::Choice(_)));
    st.set_choice(2);
    assert_eq!(st.get_var(&var("selected")).unwrap(), "3");
    assert_eq!(step(&mut st).unwrap(), StepResult::Clear);
    assert_eq!(st.get_var(&var("selected")).unwrap(), "3");
}

#[test]
fn choice_resolves_references() {
    let src = "setvar alt one\nchoice $alt|two";
    let mut st = EngineState::new("game", src).unwrap();
    assert_eq!(step(&mut st).unwrap(), StepResult::Continue);
    assert_eq!(
        step(&mut st).unwrap(),
        StepResult::Choice(vec!["one".to_string(), "two".to_string()])
    );
}

#[test]
fn jump_waits_for_host() {
    let mut st = EngineState::new("game", "jump B.scr").unwrap();
    assert_eq!(step(&mut st).unwrap(), StepResult::Jump("B.scr".to_string()));
    assert_eq!(step(&mut st).unwrap(), StepResult::Jump("B.scr".to_string()));
    st.load_script("B.scr", "text in B").unwrap();
    assert_eq!(step(&mut st).unwrap(), StepResult::Text(None, "in B".to_string()));
    assert_eq!(step(&mut st).unwrap(), StepResult::Exit);
}

#[test]
fn goto_label_at_code_end_exits() {
    let src = "goto theend\nlabel theend";
    let mut st = EngineState::new("game", src).unwrap();
    assert_eq!(step(&mut st).unwrap(), StepResult::Continue);
    assert_eq!(step(&mut st).unwrap(), StepResult::Exit);
}

#[test]
fn media_paths_and_mirrors() {
    let src = "bgload bg.png\nsetimg face.png 10 20\nsetvar DATEIMAGE cal.png\nsetimg $DATEIMAGE 0 0\nmusic m.ogg\nsound s.ogg";
    let mut st = EngineState::new("game", src).unwrap();
    assert_eq!(
        step(&mut st).unwrap(),
        StepResult::Background("game/CG/bg.png".to_string())
    );
    assert_eq!(
        step(&mut st).unwrap(),
        StepResult::Image("game/CGAlt/face.png".to_string(), ImageSlot::Main, 10, 20)
    );
    assert_eq!(step(&mut st).unwrap(), StepResult::Continue);
    assert_eq!(
        step(&mut st).unwrap(),
        StepResult::Image("game/CGAlt/cal.png".to_string(), ImageSlot::Date, 0, 0)
    );
    assert_eq!(step(&mut st).unwrap(), StepResult::Music("m.ogg".to_string()));
    assert_eq!(step(&mut st).unwrap(), StepResult::Sound("s.ogg".to_string()));
    let saved = st.save();
    assert_eq!(saved.last_background, Some("game/CG/bg.png".to_string()));
    assert_eq!(saved.last_main_image, Some("game/CGAlt/face.png".to_string()));
    assert_eq!(saved.last_date_image, Some("game/CGAlt/cal.png".to_string()));
    assert_eq!(saved.last_music, Some("m.ogg".to_string()));
}

#[test]
fn undefined_variable_in_branch_is_fatal() {
    let mut st = EngineState::new("game", "if $ghost == 1\nfi").unwrap();
    assert_eq!(step(&mut st), Err(RuntimeError::UndefinedVariable));
}

#[test]
fn assignment_through_reference_is_reserved() {
    let mut st = EngineState::new("game", "setvar $x = 5").unwrap();
    assert_eq!(step(&mut st), Err(RuntimeError::AssignThroughReference));
}

#[test]
fn step_is_deterministic() {
    let src = "setvar x 1\ntext \"hello\"";
    let mut a = EngineState::new("game", src).unwrap();
    let mut b = EngineState::new("game", src).unwrap();
    for _ in 0..3 {
        assert_eq!(step(&mut a), step(&mut b));
    }
}

#[test]
fn save_load_round_trip_across_text_pause() {
    let src = "bgload bg.png\nmusic m.ogg\ntext first\ntext second";
    let mut st = EngineState::new("game", src).unwrap();
    assert!(matches!(step(&mut st).unwrap(), StepResult::Background(_)));
    assert!(matches!(step(&mut st).unwrap(), StepResult::Music(_)));
    assert_eq!(step(&mut st).unwrap(), StepResult::Text(None, "first".to_string()));
    let saved = st.save();
    assert_eq!(saved.pc, 2);

    let mut fresh = EngineState::new("game", src).unwrap();
    let replay = fresh.load(&saved, src).unwrap();
    assert_eq!(
        replay,
        vec![
            StepResult::Background("game/CG/bg.png".to_string()),
            StepResult::Music("m.ogg".to_string()),
        ]
    );
    // A reload resumes at the last observable event: the saved text is
    // delivered again, then both runs continue identically.
    assert_eq!(step(&mut fresh).unwrap(), StepResult::Text(None, "first".to_string()));
    assert_eq!(step(&mut fresh).unwrap(), StepResult::Text(None, "second".to_string()));
    assert_eq!(step(&mut st).unwrap(), StepResult::Text(None, "second".to_string()));
    assert_eq!(step(&mut fresh).unwrap(), StepResult::Exit);
    assert_eq!(step(&mut st).unwrap(), StepResult::Exit);
}

#[test]
fn load_restores_memory_and_continues() {
    let src = "setvar hp 10\ntext checkpoint\ntext done";
    let mut st = EngineState::new("game", src).unwrap();
    assert_eq!(step(&mut st).unwrap(), StepResult::Continue);
    assert_eq!(step(&mut st).unwrap(), StepResult::Text(None, "checkpoint".to_string()));
    let saved = st.save();

    let mut fresh = EngineState::new("game", "").unwrap();
    let replay = fresh.load(&saved, src).unwrap();
    assert!(replay.is_empty());
    assert_eq!(fresh.get_var(&var("hp")).unwrap(), "10");
    assert_eq!(step(&mut fresh).unwrap(), StepResult::Text(None, "checkpoint".to_string()));
    assert_eq!(step(&mut fresh).unwrap(), StepResult::Text(None, "done".to_string()));
}

#[test]
fn indexed_cells_are_sparse() {
    let src = "setvar arr[7] seven\nsetvar arr zero";
    let mut st = EngineState::new("game", src).unwrap();
    assert_eq!(step(&mut st).unwrap(), StepResult::Continue);
    assert_eq!(step(&mut st).unwrap(), StepResult::Continue);
    let idx7 = VarOrConst { is_ref: true, name: "arr".to_string(), index: Some(7) };
    assert_eq!(st.get_var(&idx7).unwrap(), "seven");
    assert_eq!(st.get_var(&var("arr")).unwrap(), "zero");
    let idx3 = VarOrConst { is_ref: true, name: "arr".to_string(), index: Some(3) };
    assert!(st.get_var(&idx3).is_none());
}
