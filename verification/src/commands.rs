//! The command line and the program list kept for the lifetime of the
//! process.
use vstd::prelude::*;
use crate::wide::WideString;
use crate::registry::GpuMode;

verus! {

/// What the command line asks for.
#[derive(PartialEq, Eq, Structural, Clone, Copy, Debug)]
pub enum Command {
    /// No argument: set the GPU on every change of power source.
    Run,
    /// `shutdown`: stop the running instance.
    Shutdown,
    /// `dedicated`: prefer the dedicated GPU once.
    Dedicated,
    /// `integrated`: prefer the integrated GPU once.
    Integrated,
    /// `reset`: clear every preference.
    Reset,
    /// `help`.
    Help,
    /// `about`.
    About,
    /// Any other argument.
    Invalid,
}

/// The command for the first argument, if there is one.
pub open spec fn command_of(arg: Option<Seq<char>>) -> Command {
    match arg {
        None => Command::Run,
        Some(a) => if a == "shutdown"@ {
            Command::Shutdown
        } else if a == "dedicated"@ {
            Command::Dedicated
        } else if a == "integrated"@ {
            Command::Integrated
        } else if a == "reset"@ {
            Command::Reset
        } else if a == "help"@ {
            Command::Help
        } else if a == "about"@ {
            Command::About
        } else {
            Command::Invalid
        },
    }
}

/// Whether two strings hold the same chars.
fn str_equals(a: &str, b: &str) -> (r: bool)
    ensures
        r == (a@ == b@),
{
    let n = a.unicode_len();
    if n != b.unicode_len() {
        return false;
    }
    let mut i: usize = 0;
    while i < n
        invariant
            n == a@.len(),
            n == b@.len(),
            i <= n,
            forall|k: int| 0 <= k < i ==> a@[k] == b@[k],
        decreases n - i,
    {
        if a.get_char(i) != b.get_char(i) {
            return false;
        }
        i = i + 1;
    }
    assert(a@ =~= b@);
    true
}

/// The command for the first command-line argument (`None` when there is
/// none); arguments are matched exactly.
pub fn parse_command(arg: Option<&str>) -> (c: Command)
    ensures
        c == command_of(
            match arg {
                Some(a) => Some(a@),
                None => None,
            },
        ),
{
    match arg {
        None => Command::Run,
        Some(a) => if str_equals(a, "shutdown") {
            Command::Shutdown
        } else if str_equals(a, "dedicated") {
            Command::Dedicated
        } else if str_equals(a, "integrated") {
            Command::Integrated
        } else if str_equals(a, "reset") {
            Command::Reset
        } else if str_equals(a, "help") {
            Command::Help
        } else if str_equals(a, "about") {
            Command::About
        } else {
            Command::Invalid
        },
    }
}

/// The preference a command writes, if it writes one: `dedicated` and
/// `integrated` their GPU, `reset` none at all.
pub open spec fn command_mode_of(c: Command) -> Option<GpuMode> {
    match c {
        Command::Dedicated => Some(GpuMode::Dedicated),
        Command::Integrated => Some(GpuMode::Integrated),
        Command::Reset => Some(GpuMode::NoPreference),
        _ => None,
    }
}

/// Only `dedicated`, `integrated` and `reset` write a preference, each its
/// own: the dedicated GPU, the integrated GPU, and no preference; running,
/// `shutdown`, `help`, `about` and an unknown argument write nothing.
pub proof fn lemma_only_writing_commands_have_a_mode(c: Command)
    ensures
        command_mode_of(c) is Some <==> (c == Command::Dedicated || c == Command::Integrated || c
            == Command::Reset),
        c == Command::Dedicated ==> command_mode_of(c) == Some(GpuMode::Dedicated),
        c == Command::Integrated ==> command_mode_of(c) == Some(GpuMode::Integrated),
        c == Command::Reset ==> command_mode_of(c) == Some(GpuMode::NoPreference),
        command_mode_of(command_of(Some("shutdown"@))) is None,
        command_mode_of(command_of(None)) is None,
{
    reveal_strlit("shutdown");
}

/// The preference a command writes, if it writes one.
pub fn command_mode(c: Command) -> (mode: Option<GpuMode>)
    ensures
        mode == command_mode_of(c),
        mode is Some <==> (c == Command::Dedicated || c == Command::Integrated || c
            == Command::Reset),
{
    match c {
        Command::Dedicated => Some(GpuMode::Dedicated),
        Command::Integrated => Some(GpuMode::Integrated),
        Command::Reset => Some(GpuMode::NoPreference),
        _ => None,
    }
}

/// The views of a list of strings.
pub open spec fn program_views(v: Seq<WideString>) -> Seq<Seq<u16>> {
    v.map_values(|w: WideString| w@)
}

/// Every program whose GPU preference is set: the Windows apps found, then
/// the `.exe` files found, in order.
pub fn all_programs(apps: Vec<WideString>, files: Vec<WideString>) -> (programs: Vec<WideString>)
    ensures
        program_views(programs@) == program_views(apps@) + program_views(files@),
{
    let mut programs = apps;
    let mut rest = files;
    let ghost a = programs@;
    let ghost f = rest@;
    programs.append(&mut rest);
    assert(programs@ == a + f);
    assert(program_views(a + f) =~= program_views(a) + program_views(f));
    programs
}

/// The list of programs, stored at most once for the lifetime of the
/// process.
#[derive(Debug)]
pub struct ProgramStore {
    programs: Option<Vec<WideString>>,
}

impl ProgramStore {
    /// The stored programs, if any.
    pub closed spec fn stored(&self) -> Option<Seq<Seq<u16>>> {
        match self.programs {
            Some(v) => Some(program_views(v@)),
            None => None,
        }
    }

    /// A store that holds nothing yet.
    pub fn new() -> (s: Self)
        ensures
            s.stored() is None,
    {
        ProgramStore { programs: None }
    }

    /// The stored programs, if any.
    pub fn get(&self) -> (r: Option<&Vec<WideString>>)
        ensures
            match r {
                Some(v) => self.stored() == Some(program_views(v@)),
                None => self.stored() is None,
            },
    {
        match &self.programs {
            Some(v) => Some(v),
            None => None,
        }
    }
}

/// Why the program list was not stored.
#[derive(Debug)]
pub enum SetProgramsError<E> {
    /// Scanning for programs failed.
    Scan(E),
    /// A list was stored before.
    AlreadyStored,
}

/// Stores the programs that a scan found. A failed scan passes its error
/// on; a second store fails and keeps the first list.
pub fn set_programs<E>(store: &mut ProgramStore, scanned: Result<Vec<WideString>, E>) -> (r: Result<
    (),
    SetProgramsError<E>,
>)
    ensures
        match scanned {
            Err(e) => r == Err::<(), SetProgramsError<E>>(SetProgramsError::Scan(e))
                && final(store).stored() == old(store).stored(),
            Ok(programs) => if old(store).stored() is None {
                r is Ok && final(store).stored() == Some(program_views(programs@))
            } else {
                r matches Err(SetProgramsError::AlreadyStored)
                    && final(store).stored() == old(store).stored()
            },
        },
{
    match scanned {
        Err(e) => Err(SetProgramsError::Scan(e)),
        Ok(programs) => {
            if store.programs.is_none() {
                store.programs = Some(programs);
                Ok(())
            } else {
                Err(SetProgramsError::AlreadyStored)
            }
        },
    }
}

} // verus!
