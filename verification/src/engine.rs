//! The interpreter: engine state, the step relation, and choice handling.
//!
//! `step` executes exactly one instruction of the current script and reports
//! one result to the host; every observable effect of an instruction is
//! committed before the result is returned, and a failing step leaves the
//! state untouched.

use vstd::prelude::*;
use vstd::map::*;
use crate::memory::{Memory, mem_wf, copy_str};
use crate::script::{Instr, InstrV, Label, LabelV, Operator, VarOrConst, VarV};
use crate::table::{ScriptTable, tbl_wf};
use crate::compiler::{compile_script, compile_spec, CompileError};
use crate::text::{dec_str, lex_le, lex_lt, str_eq, str_lt, usize_to_string};

verus! {

/// Which logical image layer a `SetImg` addresses.
#[derive(Debug, Clone, Copy, PartialEq, Eq, Structural)]
pub enum ImageSlot {
    Date,
    Main,
}

/// What one `step` reports to the host.
#[derive(Debug, PartialEq)]
pub enum StepResult {
    Clear,
    Continue,
    Exit,
    Jump(String),
    Choice(Vec<String>),
    Text(Option<String>, String),
    Background(String),
    Image(String, ImageSlot, usize, usize),
    Sound(String),
    Music(String),
}

/// Mathematical form of a `StepResult`.
#[verifier::ext_equal]
pub enum Event {
    Clear,
    Continue,
    Exit,
    Jump(Seq<char>),
    Choice(Seq<Seq<char>>),
    Text(Option<Seq<char>>, Seq<char>),
    Background(Seq<char>),
    Image(Seq<char>, ImageSlot, usize, usize),
    Sound(Seq<char>),
    Music(Seq<char>),
}

impl View for StepResult {
    type V = Event;

    open spec fn view(&self) -> Event {
        match self {
            StepResult::Clear => Event::Clear,
            StepResult::Continue => Event::Continue,
            StepResult::Exit => Event::Exit,
            StepResult::Jump(f) => Event::Jump(f@),
            StepResult::Choice(v) => Event::Choice(v@.map_values(|s: String| s@)),
            StepResult::Text(who, what) => Event::Text(
                match who {
                    Some(w) => Some(w@),
                    None => None,
                },
                what@,
            ),
            StepResult::Background(p) => Event::Background(p@),
            StepResult::Image(p, slot, x, y) => Event::Image(p@, *slot, *x, *y),
            StepResult::Sound(f) => Event::Sound(f@),
            StepResult::Music(f) => Event::Music(f@),
        }
    }
}

/// Why a step had to give up: the script is malformed or was never loaded.
#[derive(Debug, Clone, Copy, PartialEq, Eq, Structural)]
pub enum RuntimeError {
    /// The current script has no entry in the cache.
    ScriptNotLoaded,
    /// An assignment target was a `$`-reference; writing through a
    /// reference is reserved.
    AssignThroughReference,
    /// A branch or choice dereferenced a variable cell that was never
    /// written.
    UndefinedVariable,
    /// A `Goto` still held a name instead of a resolved offset.
    UnresolvedLabel,
}

/// Mathematical form of an `EngineState`.
#[verifier::ext_equal]
pub struct StateV {
    pub scripts: Map<Seq<char>, Seq<InstrV>>,
    pub memory: Map<Seq<char>, Map<usize, Seq<char>>>,
    pub pc: usize,
    pub current_script: Seq<char>,
    pub directory: Seq<char>,
    pub last_music: Option<Seq<char>>,
    pub last_background: Option<Seq<char>>,
    pub last_main_image: Option<Seq<char>>,
    pub last_date_image: Option<Seq<char>>,
    pub pc_to_save: usize,
}

/// A running engine: compiled scripts, variable memory, the execution
/// cursor, and the mirrored last-media paths used to replay a scene after
/// a reload.
#[derive(Debug)]
pub struct EngineState {
    pub scripts: ScriptTable,
    pub memory: Memory,
    pub pc: usize,
    pub current_script: String,
    pub directory: String,
    pub last_music: Option<String>,
    pub last_background: Option<String>,
    pub last_main_image: Option<String>,
    pub last_date_image: Option<String>,
    pub pc_to_save: usize,
}

pub open spec fn view_opt(o: Option<String>) -> Option<Seq<char>> {
    match o {
        Some(s) => Some(s@),
        None => None,
    }
}

impl View for EngineState {
    type V = StateV;

    open spec fn view(&self) -> StateV {
        StateV {
            scripts: self.scripts@,
            memory: self.memory@,
            pc: self.pc,
            current_script: self.current_script@,
            directory: self.directory@,
            last_music: view_opt(self.last_music),
            last_background: view_opt(self.last_background),
            last_main_image: view_opt(self.last_main_image),
            last_date_image: view_opt(self.last_date_image),
            pc_to_save: self.pc_to_save,
        }
    }
}

impl EngineState {
    /// Representation validity: both association tables have unique keys.
    pub open spec fn wf(&self) -> bool {
        &&& mem_wf(self.memory.entries@)
        &&& tbl_wf(self.scripts.entries@)
    }
}

/// The cell index an operand addresses: a missing index reads as `0`.
pub open spec fn idx_of(v: VarV) -> usize {
    match v.index {
        Some(i) => i,
        None => 0,
    }
}

/// The value an operand denotes: a literal is its own value, a reference
/// reads the cell `(name, index)`.
pub open spec fn get_var_spec(
    m: Map<Seq<char>, Map<usize, Seq<char>>>,
    v: VarV,
) -> Option<Seq<char>> {
    if !v.is_ref {
        Some(v.name)
    } else {
        if m.contains_key(v.name) && m[v.name].contains_key(idx_of(v)) {
            Some(m[v.name][idx_of(v)])
        } else {
            None
        }
    }
}

/// Memory after writing `val` into cell `(name, idx)`.
pub open spec fn insert_spec(
    m: Map<Seq<char>, Map<usize, Seq<char>>>,
    name: Seq<char>,
    idx: usize,
    val: Seq<char>,
) -> Map<Seq<char>, Map<usize, Seq<char>>> {
    m.insert(
        name,
        (if m.contains_key(name) {
            m[name]
        } else {
            Map::empty()
        }).insert(idx, val),
    )
}

/// How a branch compares the dereferenced left value with its literal:
/// string equality, or lexicographic order by code point.
pub open spec fn cmp_spec(op: Operator, a: Seq<char>, b: Seq<char>) -> bool {
    match op {
        Operator::Equal => a == b,
        Operator::NotEqual => a != b,
        Operator::Less => lex_lt(a, b),
        Operator::LessEqual => lex_le(a, b),
    }
}

/// Resolve every choice operand against memory; `None` as soon as one
/// dereferences an absent cell.
pub open spec fn resolve_refs_spec(
    m: Map<Seq<char>, Map<usize, Seq<char>>>,
    refs: Seq<VarV>,
) -> Option<Seq<Seq<char>>>
    decreases refs.len(),
{
    if refs.len() == 0 {
        Some(Seq::empty())
    } else {
        match get_var_spec(m, refs[0]) {
            None => None,
            Some(v) => match resolve_refs_spec(m, refs.drop_first()) {
                None => None,
                Some(t) => Some(seq![v] + t),
            },
        }
    }
}

/// What executing instruction `i` at `s` does. `s.pc` is the position of
/// `i`; every successful case yields the follow-on state and the reported
/// event.
pub open spec fn step_instr(s: StateV, i: InstrV) -> Result<(StateV, Event), RuntimeError> {
    match i {
        InstrV::ClearText => Ok((StateV { pc: (s.pc + 1) as usize, ..s }, Event::Clear)),
        InstrV::SetVar(t, v) => {
            if t.is_ref {
                Err(RuntimeError::AssignThroughReference)
            } else {
                Ok(
                    (
                        StateV {
                            memory: insert_spec(s.memory, t.name, idx_of(t), v),
                            pc: (s.pc + 1) as usize,
                            ..s
                        },
                        Event::Continue,
                    ),
                )
            }
        },
        InstrV::GSetVar(t, v) => {
            if t.is_ref {
                Err(RuntimeError::AssignThroughReference)
            } else {
                Ok(
                    (
                        StateV {
                            memory: insert_spec(s.memory, t.name, idx_of(t), v),
                            pc: (s.pc + 1) as usize,
                            ..s
                        },
                        Event::Continue,
                    ),
                )
            }
        },
        InstrV::BgLoad(f, _time) => match get_var_spec(s.memory, f) {
            None => Err(RuntimeError::UndefinedVariable),
            Some(nm) => {
                let p = s.directory + "/CG/"@ + nm;
                Ok(
                    (
                        StateV { pc: (s.pc + 1) as usize, last_background: Some(p), ..s },
                        Event::Background(p),
                    ),
                )
            },
        },
        InstrV::SetImg(f, x, y) => match get_var_spec(s.memory, f) {
            None => Err(RuntimeError::UndefinedVariable),
            Some(nm) => {
                let p = s.directory + "/CGAlt/"@ + nm;
                if f.name == "DATEIMAGE"@ {
                    Ok(
                        (
                            StateV { pc: (s.pc + 1) as usize, last_date_image: Some(p), ..s },
                            Event::Image(p, ImageSlot::Date, x, y),
                        ),
                    )
                } else {
                    Ok(
                        (
                            StateV { pc: (s.pc + 1) as usize, last_main_image: Some(p), ..s },
                            Event::Image(p, ImageSlot::Main, x, y),
                        ),
                    )
                }
            },
        },
        InstrV::Delay(_d) => Ok((StateV { pc: (s.pc + 1) as usize, ..s }, Event::Continue)),
        InstrV::Branch(l, op, r, else_pc) => match get_var_spec(s.memory, l) {
            None => Err(RuntimeError::UndefinedVariable),
            Some(lv) => Ok(
                (
                    StateV {
                        pc: if cmp_spec(op, lv, r) {
                            (s.pc + 1) as usize
                        } else {
                            else_pc
                        },
                        ..s
                    },
                    Event::Continue,
                ),
            ),
        },
        InstrV::Text(who, what) => Ok(
            (
                StateV { pc_to_save: s.pc, pc: (s.pc + 1) as usize, ..s },
                Event::Text(who, what),
            ),
        ),
        InstrV::Goto(l) => match l {
            LabelV::Offset(o) => Ok((StateV { pc: o, ..s }, Event::Continue)),
            _ => Err(RuntimeError::UnresolvedLabel),
        },
        InstrV::Sound(f, _arg) => Ok((StateV { pc: (s.pc + 1) as usize, ..s }, Event::Sound(f))),
        InstrV::Music(f) => Ok(
            (StateV { last_music: Some(f), pc: (s.pc + 1) as usize, ..s }, Event::Music(f)),
        ),
        InstrV::Choice(refs) => {
            let m2 = insert_spec(s.memory, "selected"@, 0, "1"@);
            match resolve_refs_spec(m2, refs) {
                None => Err(RuntimeError::UndefinedVariable),
                Some(vals) => Ok(
                    (
                        StateV { memory: m2, pc_to_save: s.pc, pc: (s.pc + 1) as usize, ..s },
                        Event::Choice(vals),
                    ),
                ),
            }
        },
        InstrV::Jump(f) => Ok((s, Event::Jump(f))),
    }
}

/// The full step relation: out-of-range `pc` reports `Exit` and changes
/// nothing; otherwise the instruction under `pc` executes.
pub open spec fn step_spec(s: StateV) -> Result<(StateV, Event), RuntimeError> {
    if !s.scripts.contains_key(s.current_script) {
        Err(RuntimeError::ScriptNotLoaded)
    } else {
        let code = s.scripts[s.current_script];
        if s.pc >= code.len() {
            Ok((s, Event::Exit))
        } else {
            step_instr(s, code[s.pc as int])
        }
    }
}

/// Resolve an operand against a given memory.
pub fn var_lookup<'a>(m: &'a Memory, var: &'a VarOrConst) -> (r: Option<&'a String>)
    requires
        mem_wf(m.entries@),
    ensures
        match r {
            Some(s) => get_var_spec(m@, var@) == Some(s@),
            None => get_var_spec(m@, var@) is None,
        },
{
    if !var.is_ref {
        return Some(&var.name);
    }
    let idx = match var.index {
        Some(i) => i,
        None => 0,
    };
    m.get(var.name.as_str(), idx)
}

fn resolve_refs_from(m: &Memory, refs: &Vec<VarOrConst>, i: usize) -> (r: Option<Vec<String>>)
    requires
        mem_wf(m.entries@),
        i <= refs@.len(),
    ensures
        match r {
            Some(vals) => resolve_refs_spec(m@, refs@.map_values(|v: VarOrConst| v@).skip(i as int))
                == Some(vals.deep_view()),
            None => resolve_refs_spec(m@, refs@.map_values(|v: VarOrConst| v@).skip(i as int))
                is None,
        },
    decreases refs@.len() - i,
{
    let ghost rv = refs@.map_values(|v: VarOrConst| v@);
    if i == refs.len() {
        let r: Vec<String> = Vec::new();
        assert(rv.skip(i as int).len() == 0);
        assert(r.deep_view() =~= Seq::<Seq<char>>::empty());
        Some(r)
    } else {
        assert(rv.skip(i as int)[0] == rv[i as int]);
        match var_lookup(m, &refs[i]) {
            None => {
                assert(get_var_spec(m@, rv.skip(i as int)[0]) is None);
                None
            },
            Some(v) => {
                let owned = v.clone();
                match resolve_refs_from(m, refs, i + 1) {
                    None => {
                        assert(rv.skip(i as int).drop_first() =~= rv.skip(i + 1));
                        None
                    },
                    Some(mut tail) => {
                        tail.insert(0, owned);
                        assert(rv.skip(i as int).drop_first() =~= rv.skip(i + 1));
                        assert(tail.deep_view() =~= seq![v@]
                            + resolve_refs_spec(m@, rv.skip(i + 1)).unwrap());
                        Some(tail)
                    },
                }
            },
        }
    }
}

/// `dir` + `mid` + `name` as one path string.
fn media_path(dir: &str, mid: &str, name: &str) -> (r: String)
    ensures
        r@ == dir@ + mid@ + name@,
{
    let mut p = copy_str(dir);
    p.append(mid);
    p.append(name);
    p
}

/// Compare two raw string values under a branch operator.
fn compare_values(op: Operator, a: &str, b: &str) -> (r: bool)
    ensures
        r == cmp_spec(op, a@, b@),
{
    match op {
        Operator::Equal => str_eq(a, b),
        Operator::NotEqual => !str_eq(a, b),
        Operator::Less => str_lt(a, b),
        Operator::LessEqual => {
            if str_lt(a, b) {
                true
            } else {
                str_eq(a, b)
            }
        },
    }
}

impl EngineState {
    /// The value an operand denotes in this state's memory.
    pub fn get_var<'a>(&'a self, var: &'a VarOrConst) -> (r: Option<&'a String>)
        requires
            self.wf(),
        ensures
            match r {
                Some(s) => get_var_spec(self@.memory, var@) == Some(s@),
                None => get_var_spec(self@.memory, var@) is None,
            },
    {
        var_lookup(&self.memory, var)
    }

    /// Write `val` into the cell a literal target names. Writing through a
    /// `$`-reference is reserved, so the target must be a literal.
    pub fn insert(&mut self, var: &VarOrConst, val: String)
        requires
            old(self).wf(),
            !var.is_ref,
        ensures
            final(self).wf(),
            final(self)@ == (StateV {
                memory: insert_spec(old(self)@.memory, var@.name, idx_of(var@), val@),
                ..old(self)@
            }),
    {
        let idx = match var.index {
            Some(i) => i,
            None => 0,
        };
        self.memory.set(var.name.as_str(), idx, val);
    }

    /// Record the host's choice: `index` is 0-based, the distinguished
    /// `selected` variable receives the 1-based index as a string.
    pub fn set_choice(&mut self, index: usize)
        requires
            old(self).wf(),
            index < usize::MAX,
        ensures
            final(self).wf(),
            final(self)@ == (StateV {
                memory: insert_spec(
                    old(self)@.memory,
                    "selected"@,
                    0,
                    dec_str((index + 1) as nat),
                ),
                ..old(self)@
            }),
    {
        let val = usize_to_string(index + 1);
        self.memory.set("selected", 0, val);
    }
}

fn opt_clone(o: &Option<String>) -> (r: Option<String>)
    ensures
        r == *o,
{
    match o {
        Some(s) => Some(s.clone()),
        None => None,
    }
}

/// The durable part of an engine: everything a save file carries.
#[derive(Debug)]
pub struct SaveData {
    pub memory: Memory,
    pub current_script: String,
    pub pc: usize,
    pub last_music: Option<String>,
    pub last_background: Option<String>,
    pub last_main_image: Option<String>,
    pub last_date_image: Option<String>,
}

/// Mathematical form of a `SaveData`.
#[verifier::ext_equal]
pub struct SaveV {
    pub memory: Map<Seq<char>, Map<usize, Seq<char>>>,
    pub current_script: Seq<char>,
    pub pc: usize,
    pub last_music: Option<Seq<char>>,
    pub last_background: Option<Seq<char>>,
    pub last_main_image: Option<Seq<char>>,
    pub last_date_image: Option<Seq<char>>,
}

impl View for SaveData {
    type V = SaveV;

    open spec fn view(&self) -> SaveV {
        SaveV {
            memory: self.memory@,
            current_script: self.current_script@,
            pc: self.pc,
            last_music: view_opt(self.last_music),
            last_background: view_opt(self.last_background),
            last_main_image: view_opt(self.last_main_image),
            last_date_image: view_opt(self.last_date_image),
        }
    }
}

/// What a save captures: the checkpoint offset, not the live `pc`, so a
/// reload resumes at the last user-visible event.
pub open spec fn save_spec(s: StateV) -> SaveV {
    SaveV {
        memory: s.memory,
        current_script: s.current_script,
        pc: s.pc_to_save,
        last_music: s.last_music,
        last_background: s.last_background,
        last_main_image: s.last_main_image,
        last_date_image: s.last_date_image,
    }
}

/// The media events a reload replays before normal stepping resumes, in
/// this fixed order: background, music, main image, date image.
pub open spec fn replay_spec(d: SaveV) -> Seq<Event> {
    (match d.last_background {
        Some(p) => seq![Event::Background(p)],
        None => Seq::empty(),
    }) + (match d.last_music {
        Some(m) => seq![Event::Music(m)],
        None => Seq::empty(),
    }) + (match d.last_main_image {
        Some(p) => seq![Event::Image(p, ImageSlot::Main, 0, 0)],
        None => Seq::empty(),
    }) + (match d.last_date_image {
        Some(p) => seq![Event::Image(p, ImageSlot::Date, 0, 0)],
        None => Seq::empty(),
    })
}

/// The state a reload produces: the named script recompiled to `code`,
/// cursor at the saved checkpoint, memory and media mirrors restored.
pub open spec fn restore_spec(s: StateV, d: SaveV, code: Seq<InstrV>) -> StateV {
    StateV {
        scripts: s.scripts.insert(d.current_script, code),
        current_script: d.current_script,
        pc: d.pc,
        memory: d.memory,
        last_music: d.last_music,
        last_background: d.last_background,
        last_main_image: d.last_main_image,
        last_date_image: d.last_date_image,
        directory: s.directory,
        pc_to_save: s.pc_to_save,
    }
}

impl EngineState {
    /// A fresh engine rooted at `directory`, with the text of `main.scr`
    /// compiled eagerly. The host reads the file; compilation and every
    /// later decision happen here.
    pub fn new(directory: &str, main_source: &str) -> (r: Result<EngineState, CompileError>)
        ensures
            match compile_spec(main_source@) {
                Ok(code) => r matches Ok(st) && st.wf() && st@ == (StateV {
                    scripts: Map::empty().insert("main.scr"@, code),
                    memory: Map::empty(),
                    pc: 0,
                    current_script: "main.scr"@,
                    directory: directory@,
                    last_music: None,
                    last_background: None,
                    last_main_image: None,
                    last_date_image: None,
                    pc_to_save: 0,
                }),
                Err(e) => r matches Err(e2) && e2 == e,
            },
    {
        let mut st = EngineState {
            scripts: ScriptTable::new(),
            memory: Memory::new(),
            pc: 0,
            current_script: copy_str("main.scr"),
            directory: copy_str(directory),
            last_music: None,
            last_background: None,
            last_main_image: None,
            last_date_image: None,
            pc_to_save: 0,
        };
        match st.load_script("main.scr", main_source) {
            Ok(()) => Ok(st),
            Err(e) => Err(e),
        }
    }

    /// Compile `source` as script `name`, cache it under that name, make
    /// it current, and reset the cursor to its start.
    pub fn load_script(&mut self, name: &str, source: &str) -> (r: Result<(), CompileError>)
        requires
            old(self).wf(),
        ensures
            final(self).wf(),
            match compile_spec(source@) {
                Ok(code) => r is Ok && final(self)@ == (StateV {
                    scripts: old(self)@.scripts.insert(name@, code),
                    current_script: name@,
                    pc: 0,
                    ..old(self)@
                }),
                Err(e) => (r matches Err(e2) && e2 == e) && final(self)@ == old(self)@,
            },
    {
        match compile_script(source) {
            Err(e) => Err(e),
            Ok(sc) => {
                self.scripts.set(name, sc);
                self.current_script = copy_str(name);
                self.pc = 0;
                Ok(())
            },
        }
    }

    /// Capture the durable state. The stored offset is `pc_to_save`, the
    /// checkpoint of the last text or choice, not the live cursor.
    pub fn save(&self) -> (r: SaveData)
        requires
            self.wf(),
        ensures
            r@ == save_spec(self@),
            mem_wf(r.memory.entries@),
    {
        SaveData {
            memory: self.memory.dup(),
            current_script: self.current_script.clone(),
            pc: self.pc_to_save,
            last_music: opt_clone(&self.last_music),
            last_background: opt_clone(&self.last_background),
            last_main_image: opt_clone(&self.last_main_image),
            last_date_image: opt_clone(&self.last_date_image),
        }
    }

    /// Restore a saved state: recompile the saved script from `source`,
    /// resume at the saved checkpoint, and hand back the media events the
    /// host must replay before stepping again. On a compile error nothing
    /// changes.
    pub fn load(&mut self, data: &SaveData, source: &str) -> (r: Result<
        Vec<StepResult>,
        CompileError,
    >)
        requires
            old(self).wf(),
            mem_wf(data.memory.entries@),
        ensures
            final(self).wf(),
            match compile_spec(source@) {
                Ok(code) => r matches Ok(steps) && steps@.map_values(|x: StepResult| x@)
                    == replay_spec(data@) && final(self)@ == restore_spec(
                    old(self)@,
                    data@,
                    code,
                ),
                Err(e) => (r matches Err(e2) && e2 == e) && final(self)@ == old(self)@,
            },
    {
        let sc = match compile_script(source) {
            Ok(sc) => sc,
            Err(e) => {
                return Err(e);
            },
        };
        self.scripts.set(data.current_script.as_str(), sc);
        self.current_script = data.current_script.clone();
        self.pc = data.pc;
        self.memory = data.memory.dup();
        self.last_music = opt_clone(&data.last_music);
        self.last_background = opt_clone(&data.last_background);
        self.last_main_image = opt_clone(&data.last_main_image);
        self.last_date_image = opt_clone(&data.last_date_image);
        let mut steps: Vec<StepResult> = Vec::new();
        match &data.last_background {
            Some(p) => steps.push(StepResult::Background(p.clone())),
            None => (),
        }
        match &data.last_music {
            Some(m) => steps.push(StepResult::Music(m.clone())),
            None => (),
        }
        match &data.last_main_image {
            Some(p) => steps.push(StepResult::Image(p.clone(), ImageSlot::Main, 0, 0)),
            None => (),
        }
        match &data.last_date_image {
            Some(p) => steps.push(StepResult::Image(p.clone(), ImageSlot::Date, 0, 0)),
            None => (),
        }
        assert(steps@.map_values(|x: StepResult| x@) =~= replay_spec(data@));
        Ok(steps)
    }
}

/// Execute one instruction of the current script. On success the reported
/// event and the new state are exactly what `step_spec` gives; on failure
/// the state is unchanged.
pub fn step(state: &mut EngineState) -> (r: Result<StepResult, RuntimeError>)
    requires
        old(state).wf(),
    ensures
        final(state).wf(),
        ({
            let outcome = step_spec(old(state)@);
            match outcome {
                Ok(pair) => r matches Ok(sr) && sr@ == pair.1 && final(state)@ == pair.0,
                Err(e) => r matches Err(e2) && e2 == e && final(state)@ == old(state)@,
            }
        }),
{
    let ghost s0 = state@;
    let instr: Instr = {
        let sc = match state.scripts.get(state.current_script.as_str()) {
            Some(sc) => sc,
            None => {
                return Err(RuntimeError::ScriptNotLoaded);
            },
        };
        if state.pc >= sc.code.len() {
            return Ok(StepResult::Exit);
        }
        let i = sc.code[state.pc].dup();
        proof {
            assert(sc@[s0.pc as int] == sc.code@[s0.pc as int]@);
        }
        i
    };
    assert(instr@ == s0.scripts[s0.current_script][s0.pc as int]);
    match instr {
        Instr::ClearText => {
            state.pc = state.pc + 1;
            assert(state@ =~= StateV { pc: (s0.pc + 1) as usize, ..s0 });
            Ok(StepResult::Clear)
        },
        Instr::SetVar(target, value) => {
            if target.is_ref {
                return Err(RuntimeError::AssignThroughReference);
            }
            state.insert(&target, value);
            state.pc = state.pc + 1;
            assert(state@ =~= StateV {
                memory: insert_spec(s0.memory, target@.name, idx_of(target@), value@),
                pc: (s0.pc + 1) as usize,
                ..s0
            });
            Ok(StepResult::Continue)
        },
        Instr::GSetVar(target, value) => {
            if target.is_ref {
                return Err(RuntimeError::AssignThroughReference);
            }
            state.insert(&target, value);
            state.pc = state.pc + 1;
            assert(state@ =~= StateV {
                memory: insert_spec(s0.memory, target@.name, idx_of(target@), value@),
                pc: (s0.pc + 1) as usize,
                ..s0
            });
            Ok(StepResult::Continue)
        },
        Instr::BgLoad(file, _time) => {
            let path: String = match state.get_var(&file) {
                Some(name) => media_path(state.directory.as_str(), "/CG/", name.as_str()),
                None => {
                    return Err(RuntimeError::UndefinedVariable);
                },
            };
            state.pc = state.pc + 1;
            state.last_background = Some(path.clone());
            assert(state@ =~= StateV {
                pc: (s0.pc + 1) as usize,
                last_background: Some(path@),
                ..s0
            });
            Ok(StepResult::Background(path))
        },
        Instr::SetImg(file, x, y) => {
            let path: String = match state.get_var(&file) {
                Some(name) => media_path(state.directory.as_str(), "/CGAlt/", name.as_str()),
                None => {
                    return Err(RuntimeError::UndefinedVariable);
                },
            };
            state.pc = state.pc + 1;
            if str_eq(file.name.as_str(), "DATEIMAGE") {
                state.last_date_image = Some(path.clone());
                assert(state@ =~= StateV {
                    pc: (s0.pc + 1) as usize,
                    last_date_image: Some(path@),
                    ..s0
                });
                Ok(StepResult::Image(path, ImageSlot::Date, x, y))
            } else {
                state.last_main_image = Some(path.clone());
                assert(state@ =~= StateV {
                    pc: (s0.pc + 1) as usize,
                    last_main_image: Some(path@),
                    ..s0
                });
                Ok(StepResult::Image(path, ImageSlot::Main, x, y))
            }
        },
        Instr::Delay(_units) => {
            state.pc = state.pc + 1;
            assert(state@ =~= StateV { pc: (s0.pc + 1) as usize, ..s0 });
            Ok(StepResult::Continue)
        },
        Instr::Branch(lhs, op, rhs, else_pc) => {
            let taken: bool = match state.get_var(&lhs) {
                Some(left) => compare_values(op, left.as_str(), rhs.as_str()),
                None => {
                    return Err(RuntimeError::UndefinedVariable);
                },
            };
            if taken {
                state.pc = state.pc + 1;
            } else {
                state.pc = else_pc;
            }
            assert(state@ =~= StateV {
                pc: if cmp_spec(op, get_var_spec(s0.memory, lhs@).unwrap(), rhs@) {
                    (s0.pc + 1) as usize
                } else {
                    else_pc
                },
                ..s0
            });
            Ok(StepResult::Continue)
        },
        Instr::Text(who, what) => {
            state.pc_to_save = state.pc;
            state.pc = state.pc + 1;
            assert(state@ =~= StateV { pc_to_save: s0.pc, pc: (s0.pc + 1) as usize, ..s0 });
            Ok(StepResult::Text(who, what))
        },
        Instr::Goto(target) => match target {
            Label::Offset(o) => {
                state.pc = o;
                assert(state@ =~= StateV { pc: o, ..s0 });
                Ok(StepResult::Continue)
            },
            _ => Err(RuntimeError::UnresolvedLabel),
        },
        Instr::Sound(file, _arg) => {
            state.pc = state.pc + 1;
            assert(state@ =~= StateV { pc: (s0.pc + 1) as usize, ..s0 });
            Ok(StepResult::Sound(file))
        },
        Instr::Music(file) => {
            state.last_music = Some(file.clone());
            state.pc = state.pc + 1;
            assert(state@ =~= StateV {
                last_music: Some(file@),
                pc: (s0.pc + 1) as usize,
                ..s0
            });
            Ok(StepResult::Music(file))
        },
        Instr::Choice(choices) => {
            let mut mem2 = state.memory.dup();
            mem2.set("selected", 0, copy_str("1"));
            assert(mem2@ == insert_spec(s0.memory, "selected"@, 0, "1"@));
            match resolve_refs_from(&mem2, &choices, 0) {
                None => {
                    proof {
                        let rv = choices@.map_values(|v: VarOrConst| v@);
                        assert(rv.skip(0) =~= rv);
                    }
                    Err(RuntimeError::UndefinedVariable)
                },
                Some(vals) => {
                    proof {
                        let rv = choices@.map_values(|v: VarOrConst| v@);
                        assert(rv.skip(0) =~= rv);
                    }
                    state.memory = mem2;
                    state.pc_to_save = state.pc;
                    state.pc = state.pc + 1;
                    assert(state@ =~= StateV {
                        memory: insert_spec(s0.memory, "selected"@, 0, "1"@),
                        pc_to_save: s0.pc,
                        pc: (s0.pc + 1) as usize,
                        ..s0
                    });
                    Ok(StepResult::Choice(vals))
                },
            }
        },
        Instr::Jump(file) => {
            assert(state@ =~= s0);
            Ok(StepResult::Jump(file))
        },
    }
}

} // verus!
