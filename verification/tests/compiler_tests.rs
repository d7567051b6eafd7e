use madenon::compiler::{compile_script, parse_text, parse_var_ref, CompileError, Emitter};
use madenon::pretty::print_script;
use madenon::script::{Instr, Label, Operator};

#[test]
fn empty_source_compiles_to_zero_instructions() {
    let sc = compile_script("").unwrap();
    assert_eq!(sc.code.len(), 0);
    let sc2 = compile_script("\n   \n\t\n").unwrap();
    assert_eq!(sc2.code.len(), 0);
}

#[test]
fn var_ref_forms() {
    let v = parse_var_ref("$x").unwrap();
    assert!(v.is_ref);
    assert_eq!(v.name, "x");
    assert_eq!(v.index, None);
    let v = parse_var_ref("$arr[3]").unwrap();
    assert!(v.is_ref);
    assert_eq!(v.name, "arr");
    assert_eq!(v.index, Some(3));
    let v = parse_var_ref("lit[0]").unwrap();
    assert!(!v.is_ref);
    assert_eq!(v.name, "lit");
    assert_eq!(v.index, Some(0));
    assert_eq!(parse_var_ref("oops]"), None);
    assert_eq!(parse_var_ref("a[zz]"), None);
}

#[test]
fn text_payload_forms() {
    assert_eq!(
        parse_text("\"Yuichi\" \"Hello, world.\""),
        (Some("Yuichi".to_string()), "Hello, world.".to_string())
    );
    assert_eq!(parse_text("no quotes here"), (None, "no quotes here".to_string()));
    assert_eq!(parse_text(""), (None, "".to_string()));
}

#[test]
fn dispatch_and_instructions() {
    let src = "cleartext\nsetvar x = 5\ngsetvar g - two words\nbgload bg.png 3\nsetimg face.png 10 20\ndelay 7\nsound s.ogg 1\nmusic m.ogg\njump next.scr\n";
    let sc = compile_script(src).unwrap();
    assert_eq!(sc.code.len(), 9);
    assert!(matches!(sc.code[0], Instr::ClearText));
    match &sc.code[1] {
        Instr::SetVar(t, v) => {
            assert!(!t.is_ref);
            assert_eq!(t.name, "x");
            assert_eq!(v, "5");
        },
        other => panic!("unexpected {:?}", other),
    }
    match &sc.code[2] {
        Instr::GSetVar(t, v) => {
            assert_eq!(t.name, "g");
            assert_eq!(v, "two words");
        },
        other => panic!("unexpected {:?}", other),
    }
    assert!(matches!(&sc.code[3], Instr::BgLoad(_, Some(3))));
    assert!(matches!(&sc.code[4], Instr::SetImg(_, 10, 20)));
    assert!(matches!(&sc.code[5], Instr::Delay(7)));
    assert!(matches!(&sc.code[6], Instr::Sound(_, Some(1))));
    assert!(matches!(&sc.code[7], Instr::Music(_)));
    assert!(matches!(&sc.code[8], Instr::Jump(_)));
}

#[test]
fn branch_patching_with_fi() {
    let src = "setvar x 5\nif $x == 5\ntext \"Taken.\"\nfi\ntext \"After.\"";
    let sc = compile_script(src).unwrap();
    assert_eq!(sc.code.len(), 4);
    match &sc.code[1] {
        Instr::Branch(l, op, r, else_pc) => {
            assert!(l.is_ref);
            assert_eq!(l.name, "x");
            assert_eq!(*op, Operator::Equal);
            assert_eq!(r, "5");
            assert_eq!(*else_pc, 3);
        },
        other => panic!("unexpected {:?}", other),
    }
}

#[test]
fn if_without_fi_skips_nothing() {
    let src = "if $x == 5\ntext a\ntext b";
    let sc = compile_script(src).unwrap();
    match &sc.code[0] {
        Instr::Branch(_, _, _, else_pc) => assert_eq!(*else_pc, 1),
        other => panic!("unexpected {:?}", other),
    }
}

#[test]
fn labels_resolve_to_offsets_in_range() {
    let src = "label top\ntext a\ngoto top\ngoto @9\nlabel @9\ngoto theend\ntext b\nlabel theend";
    let sc = compile_script(src).unwrap();
    for (k, instr) in sc.code.iter().enumerate() {
        if let Instr::Goto(l) = instr {
            match l {
                Label::Offset(o) => assert!(*o <= sc.code.len()),
                other => panic!("unresolved label {:?} at {}", other, k),
            }
        }
    }
    assert!(matches!(&sc.code[1], Instr::Goto(Label::Offset(0))));
    assert!(matches!(&sc.code[2], Instr::Goto(Label::Offset(3))));
    assert!(matches!(&sc.code[3], Instr::Goto(Label::Offset(5))));
}

#[test]
fn compile_errors_carry_the_line() {
    assert_eq!(
        compile_script("frobnicate x"),
        Err(CompileError::UnknownDirective { line: 1 })
    );
    assert_eq!(compile_script("\ndelay x"), Err(CompileError::BadNumber { line: 2 }));
    assert_eq!(compile_script("setvar a] = 5"), Err(CompileError::BadVarRef { line: 1 }));
    assert_eq!(
        compile_script("if $x >= 5"),
        Err(CompileError::UnknownOperator { line: 1 })
    );
    assert_eq!(compile_script("text x\nfi"), Err(CompileError::StrayFi { line: 2 }));
    assert_eq!(compile_script("goto nowhere"), Err(CompileError::UnresolvedLabel));
    assert_eq!(compile_script("music"), Err(CompileError::UnknownDirective { line: 1 }));
    assert_eq!(compile_script("setvar x"), Err(CompileError::UnknownDirective { line: 1 }));
}

#[test]
fn emitter_surface() {
    let mut em = Emitter::new();
    em.emit(Instr::Goto(Label::Named("top".to_string())));
    em.make_label(Label::Named("top".to_string()));
    em.begin_branch();
    assert!(em.end_branch().is_err());
    let sc = em.into_script().unwrap();
    assert!(matches!(&sc.code[0], Instr::Goto(Label::Offset(1))));
}

#[test]
fn print_then_compile_reproduces_instructions() {
    let src = "setvar x 5\nif $x == 5\ntext \"Taken.\"\nfi\nbgload bg.png\nsetimg face.png 1 2\ngoto theend\nchoice A|$x|C[2]\nmusic m.ogg\nsound s.ogg 3\ndelay 4\ncleartext\njump other.scr\nlabel theend";
    let sc = compile_script(src).unwrap();
    let printed = print_script(&sc);
    let sc2 = compile_script(&printed).unwrap();
    assert_eq!(sc.code, sc2.code);
}

#[test]
fn print_round_trip_keeps_branch_targets() {
    let src = "if $a == 1\ntext one\ntext two\nfi\nif $b != 2\nfi\ntext tail";
    let sc = compile_script(src).unwrap();
    let printed = print_script(&sc);
    let sc2 = compile_script(&printed).unwrap();
    assert_eq!(sc.code, sc2.code);
}
