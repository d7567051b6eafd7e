//! Engine-wide laws: determinism of stepping, the save/load round trip,
//! media mirroring, choice defaulting, and unescape idempotence. Each law
//! is stated over the mathematical step relation that `step`'s contract
//! pins the executable code to.

use vstd::prelude::*;
use vstd::map::*;
use crate::archive::{read_spec, ArchiveV};
use crate::engine::{
    insert_spec, restore_spec, save_spec, step_spec, Event, ImageSlot, RuntimeError, StateV,
};
use crate::script::{InstrV, LabelV};
use crate::text::{strip_spec, unesc, unescape_spec};

verus! {

/// Stepping has no hidden inputs: engines with equal mathematical states
/// step to the same outcome. Together with `step`'s contract, which pins
/// the reported result and the follow-on state to `step_spec` of the state
/// alone, two runs over equal states report identical results.
pub proof fn lemma_step_deterministic(a: StateV, b: StateV)
    requires
        a == b,
    ensures
        step_spec(a) == step_spec(b),
{
}

/// Two states that agree on everything an execution can observe: memory,
/// cursor, the current script's code, directory and the media mirrors.
/// Cached scripts other than the current one may differ.
pub open spec fn obs_eq(a: StateV, b: StateV) -> bool {
    &&& a.memory == b.memory
    &&& a.pc == b.pc
    &&& a.pc_to_save == b.pc_to_save
    &&& a.current_script == b.current_script
    &&& a.directory == b.directory
    &&& a.last_music == b.last_music
    &&& a.last_background == b.last_background
    &&& a.last_main_image == b.last_main_image
    &&& a.last_date_image == b.last_date_image
    &&& a.scripts.contains_key(a.current_script) == b.scripts.contains_key(b.current_script)
    &&& (a.scripts.contains_key(a.current_script) ==> a.scripts[a.current_script]
        == b.scripts[b.current_script])
}

/// Observationally equal states step to the same event and to
/// observationally equal states again; errors coincide as well. This is
/// the induction step that carries a save/load round trip forward.
pub proof fn lemma_obs_eq_step(a: StateV, b: StateV)
    requires
        obs_eq(a, b),
    ensures
        match (step_spec(a), step_spec(b)) {
            (Ok(pa), Ok(pb)) => pa.1 == pb.1 && obs_eq(pa.0, pb.0),
            (Err(ea), Err(eb)) => ea == eb,
            _ => false,
        },
{
    if a.scripts.contains_key(a.current_script) {
        let code = a.scripts[a.current_script];
        assert(b.scripts[b.current_script] == code);
        if a.pc < code.len() {
            match code[a.pc as int] {
                InstrV::ClearText => {},
                InstrV::SetVar(_t, _v) => {},
                InstrV::GSetVar(_t, _v) => {},
                InstrV::BgLoad(_f, _time) => {},
                InstrV::SetImg(_f, _x, _y) => {},
                InstrV::Delay(_d) => {},
                InstrV::Branch(_l, _op, _r, _e) => {},
                InstrV::Text(_who, _what) => {},
                InstrV::Goto(_l) => {},
                InstrV::Sound(_f, _arg) => {},
                InstrV::Music(_f) => {},
                InstrV::Choice(_refs) => {},
                InstrV::Jump(_f) => {},
            }
        }
    }
}

/// Loading the same compiled script into observationally equal states
/// keeps them observationally equal; with `lemma_obs_eq_step` this carries
/// a round trip across a `Jump`.
pub proof fn lemma_obs_eq_load_script(a: StateV, b: StateV, name: Seq<char>, code: Seq<InstrV>)
    requires
        obs_eq(a, b),
    ensures
        obs_eq(
            StateV { scripts: a.scripts.insert(name, code), current_script: name, pc: 0, ..a },
            StateV { scripts: b.scripts.insert(name, code), current_script: name, pc: 0, ..b },
        ),
{
}

/// Save → load round trip. Let `s` be a state just suspended at a text or
/// choice event `ev`, and let a fresh engine over the same game directory
/// reload the save with the current script recompiled to the identical
/// `code`. The first step of the reloaded engine re-emits `ev` — a reload
/// resumes at the last observable event — and lands in a state
/// observationally equal to `s`, so every later step coincides with
/// stepping `s` itself.
pub proof fn lemma_save_load_round_trip(
    s0: StateV,
    s: StateV,
    ev: Event,
    fresh: StateV,
    code: Seq<InstrV>,
)
    requires
        step_spec(s0) == Ok::<(StateV, Event), RuntimeError>((s, ev)),
        (ev matches Event::Text(_, _)) || (ev matches Event::Choice(_)),
        code == s.scripts[s.current_script],
        fresh.directory == s.directory,
    ensures
        ({
            let s2 = restore_spec(fresh, save_spec(s), code);
            match step_spec(s2) {
                Ok(pair) => pair.1 == ev && obs_eq(pair.0, s),
                Err(_) => false,
            }
        }),
{
    let s2 = restore_spec(fresh, save_spec(s), code);
    let cs = s0.current_script;
    let code0 = s0.scripts[cs];
    let i = code0[s0.pc as int];
    assert(s.scripts == s0.scripts && s.current_script == cs);
    assert(s.pc_to_save == s0.pc && s.pc == (s0.pc + 1) as usize);
    assert(s2.scripts.contains_key(cs) && s2.scripts[cs] == code);
    assert(s2.pc == s0.pc);
    match i {
        InstrV::Text(_who, _what) => {
            assert(s2.memory == s.memory);
        },
        InstrV::Choice(refs) => {
            let m2 = insert_spec(s0.memory, "selected"@, 0, "1"@);
            assert(s.memory == m2);
            assert(insert_spec(m2, "selected"@, 0, "1"@) == m2) by {
                assert(m2["selected"@].insert(0, "1"@) =~= m2["selected"@]);
                assert(m2.insert("selected"@, m2["selected"@].insert(0, "1"@)) =~= m2);
            }
        },
        _ => {
            assert(false);
        },
    }
}

/// Every media-emitting instruction updates its mirror before the event is
/// reported: a background sets `last_background`, music sets `last_music`,
/// and an image sets the mirror of its slot.
pub proof fn lemma_media_mirrors(s: StateV)
    ensures
        step_spec(s) matches Ok(pair) ==> {
            &&& (pair.1 matches Event::Background(p) ==> pair.0.last_background == Some(p))
            &&& (pair.1 matches Event::Music(m) ==> pair.0.last_music == Some(m))
            &&& (pair.1 matches Event::Image(p, slot, _x, _y) ==> if slot is Date {
                pair.0.last_date_image == Some(p)
            } else {
                pair.0.last_main_image == Some(p)
            })
        },
{
    if s.scripts.contains_key(s.current_script) {
        let code = s.scripts[s.current_script];
        if s.pc < code.len() {
            match code[s.pc as int] {
                InstrV::ClearText => {},
                InstrV::SetVar(_t, _v) => {},
                InstrV::GSetVar(_t, _v) => {},
                InstrV::BgLoad(_f, _time) => {},
                InstrV::SetImg(_f, _x, _y) => {},
                InstrV::Delay(_d) => {},
                InstrV::Branch(_l, _op, _r, _e) => {},
                InstrV::Text(_who, _what) => {},
                InstrV::Goto(_l) => {},
                InstrV::Sound(_f, _arg) => {},
                InstrV::Music(_f) => {},
                InstrV::Choice(_refs) => {},
                InstrV::Jump(_f) => {},
            }
        }
    }
}

/// Executing a choice instruction defaults the `selected` cell to `"1"`,
/// whatever the number of alternatives — in particular a choice with a
/// single alternative.
pub proof fn lemma_choice_defaults_selected(s: StateV)
    requires
        s.scripts.contains_key(s.current_script),
        s.pc < s.scripts[s.current_script].len(),
        s.scripts[s.current_script][s.pc as int] matches InstrV::Choice(_),
    ensures
        step_spec(s) matches Ok(pair) ==> {
            &&& pair.0.memory.contains_key("selected"@)
            &&& pair.0.memory["selected"@].contains_key(0)
            &&& pair.0.memory["selected"@][0] == "1"@
        },
{
}

/// A step never unsets the `selected` cell, and leaves its value alone
/// unless the instruction itself writes it: a choice re-defaults it and an
/// assignment to `selected` overwrites it.
pub open spec fn writes_selected(i: InstrV) -> bool {
    match i {
        InstrV::Choice(_) => true,
        InstrV::SetVar(t, _) => t.name == "selected"@ && crate::engine::idx_of(t) == 0,
        InstrV::GSetVar(t, _) => t.name == "selected"@ && crate::engine::idx_of(t) == 0,
        _ => false,
    }
}

/// The value `set_choice` recorded survives any following step whose
/// instruction does not itself write `selected`; combined with
/// `set_choice`'s contract, a choice of index `i` is still recorded as the
/// 1-based string when the next instruction reads it.
pub proof fn lemma_selected_preserved(s: StateV)
    requires
        s.memory.contains_key("selected"@),
        s.memory["selected"@].contains_key(0),
        s.scripts.contains_key(s.current_script),
        s.pc < s.scripts[s.current_script].len() ==> !writes_selected(
            s.scripts[s.current_script][s.pc as int],
        ),
    ensures
        step_spec(s) matches Ok(pair) ==> {
            &&& pair.0.memory.contains_key("selected"@)
            &&& pair.0.memory["selected"@].contains_key(0)
            &&& pair.0.memory["selected"@][0] == s.memory["selected"@][0]
        },
{
    let code = s.scripts[s.current_script];
    if s.pc < code.len() {
        match code[s.pc as int] {
            InstrV::SetVar(t, _v) => {
                if !t.is_ref {
                    assert(t.name != "selected"@ || crate::engine::idx_of(t) != 0);
                }
            },
            InstrV::GSetVar(t, _v) => {
                if !t.is_ref {
                    assert(t.name != "selected"@ || crate::engine::idx_of(t) != 0);
                }
            },
            _ => {},
        }
    }
}

/// Backslash collapsing leaves a backslash-free string unchanged.
pub proof fn lemma_unesc_no_backslash(s: Seq<char>)
    requires
        forall|i: int| 0 <= i < s.len() ==> s[i] != '\\',
    ensures
        unesc(s) == s,
    decreases s.len(),
{
    if s.len() > 0 {
        let t = s.skip(1);
        assert(forall|k: int| 0 <= k < t.len() ==> t[k] == s[k + 1]);
        lemma_unesc_no_backslash(t);
        assert(seq![s[0]] + t =~= s);
    }
}

/// Unescaping is idempotent on strings with no backslashes and no
/// surrounding quotes: one pass returns them unchanged, so a second pass
/// changes nothing.
pub proof fn lemma_unescape_idempotent(x: Seq<char>)
    requires
        forall|i: int| 0 <= i < x.len() ==> x[i] != '\\',
        x.len() > 0 ==> x[0] != '"' && x[0] != '\'' && x.last() != '"' && x.last() != '\'',
    ensures
        unescape_spec(x) == x,
        unescape_spec(unescape_spec(x)) == unescape_spec(x),
{
    assert(strip_spec(x, '"') == x);
    assert(strip_spec(x, '\'') == x);
    lemma_unesc_no_backslash(x);
}

/// An archive read is a pure function of the archive and the name: any two
/// results that satisfy `read`'s contract for the same archive and name
/// hold identical bytes. Repeated reads therefore return byte-identical
/// content.
pub proof fn lemma_read_repeatable(
    a: ArchiveV,
    q: Seq<u8>,
    r1: Option<Seq<u8>>,
    r2: Option<Seq<u8>>,
)
    requires
        match r1 {
            Some(v) => read_spec(a, q) == Some(v),
            None => read_spec(a, q) is None,
        },
        match r2 {
            Some(v) => read_spec(a, q) == Some(v),
            None => read_spec(a, q) is None,
        },
    ensures
        r1 == r2,
{
}

} // verus!
