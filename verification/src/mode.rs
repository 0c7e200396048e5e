use vstd::prelude::*;

verus! {

broadcast use vstd::string::group_string_axioms;

/// Above this input size (600 MiB) one archive file is not used.
pub const SINGLE_VPK_LIMIT: u64 = 629145600;

pub open spec fn exceeds_single_limit(total_size: u64) -> bool {
    total_size > SINGLE_VPK_LIMIT
}

/// What the user asked for.
#[derive(Clone, Copy, Debug, PartialEq, Eq, Structural)]
pub struct PackOptions {
    /// Keep everything in one archive file.
    pub single: bool,
    /// Split the data over archive chunks.
    pub multi: bool,
    /// Worker threads for reading; all cores when none is given.
    pub threads: Option<usize>,
}

/// Whether the data goes into archive chunks: when the user asked for it and
/// not for a single file, and always when the input is larger than the
/// single-file limit.
pub fn use_multi_chunks(options: PackOptions, total_size: u64) -> (r: bool)
    ensures
        r == (exceeds_single_limit(total_size) || (!options.single && options.multi)),
{
    let exceeds = total_size > SINGLE_VPK_LIMIT;
    let requested_multi = if options.single {
        false
    } else if options.multi {
        true
    } else {
        exceeds
    };
    requested_multi || exceeds
}

/// Whether a request for a single file is overruled because the input is too large.
pub fn single_request_overruled(options: PackOptions, total_size: u64) -> (r: bool)
    ensures
        r == (options.single && exceeds_single_limit(total_size)),
{
    total_size > SINGLE_VPK_LIMIT && options.single
}

/// The packing mode chosen in the window.
#[derive(Clone, Copy, Debug, PartialEq, Eq, Structural)]
pub enum ModeChoice {
    Single,
    Multi,
}

/// What pressing "Create VPK" leads to.
#[derive(Clone, Copy, Debug, PartialEq, Eq, Structural)]
pub enum StartDecision {
    /// A packing run is already going on; nothing happens.
    Busy,
    /// Something is missing; a line in the log says what.
    Refused,
    /// Packing starts with these options.
    Start(PackOptions),
}

/// The state of the window, with `P` the type of a folder path.
pub struct GuiState<P> {
    pub input_dir: Option<P>,
    pub input_size: Option<u64>,
    pub output_dir: Option<P>,
    pub mode_choice: ModeChoice,
    pub running: bool,
    pub logs: Vec<String>,
}

impl<P> GuiState<P> {
    /// Single-file mode can be chosen: no input yet, or an input within the limit.
    pub open spec fn single_allowed(&self) -> bool {
        match self.input_size {
            Some(s) => !exceeds_single_limit(s),
            None => true,
        }
    }

    /// Above the single-file limit the mode is multi-chunk.
    pub open spec fn mode_enforced(&self) -> bool {
        match self.input_size {
            Some(s) => exceeds_single_limit(s) ==> self.mode_choice == ModeChoice::Multi,
            None => true,
        }
    }

    /// The window as it opens: nothing selected, single-file mode, one line
    /// of instructions in the log.
    pub fn new() -> (r: Self)
        ensures
            r.input_dir is None,
            r.input_size is None,
            r.output_dir is None,
            r.mode_choice == ModeChoice::Single,
            !r.running,
            r.logs@.len() == 1,
            r.logs@[0]@ == "Drag and drop an input folder here or click 'Select input folder'."@,
            r.mode_enforced(),
    {
        let mut logs: Vec<String> = Vec::new();
        logs.push("Drag and drop an input folder here or click 'Select input folder'.".to_string());
        GuiState {
            input_dir: None,
            input_size: None,
            output_dir: None,
            mode_choice: ModeChoice::Single,
            running: false,
            logs,
        }
    }

    /// Takes `path`, holding `total_size` bytes, as the input folder. Above
    /// the single-file limit multi-chunk mode is selected, and the result says
    /// so.
    pub fn select_input(&mut self, path: P, total_size: u64) -> (forced_multi: bool)
        ensures
            forced_multi == exceeds_single_limit(total_size),
            final(self).input_dir == Some(path),
            final(self).input_size == Some(total_size),
            final(self).mode_choice == (if forced_multi { ModeChoice::Multi } else { old(self).mode_choice }),
            final(self).output_dir == old(self).output_dir,
            final(self).running == old(self).running,
            final(self).logs@ == old(self).logs@,
            final(self).mode_enforced(),
    {
        let exceeds = total_size > SINGLE_VPK_LIMIT;
        if exceeds {
            self.mode_choice = ModeChoice::Multi;
        }
        self.input_dir = Some(path);
        self.input_size = Some(total_size);
        exceeds
    }

    /// Whether single-file mode can be chosen: no input yet, or an input
    /// within the limit.
    pub fn single_mode_available(&self) -> (r: bool)
        ensures
            r == self.single_allowed(),
    {
        match self.input_size {
            Some(s) => s <= SINGLE_VPK_LIMIT,
            None => true,
        }
    }

    /// "Create VPK" was pressed. `name_missing` says whether no output file
    /// name can be derived from the input folder. Packing starts when nothing
    /// runs yet and both folders and a name are there; the mode is forced to
    /// multi-chunk above the single-file limit.
    pub fn start_request(&mut self, name_missing: bool) -> (r: StartDecision)
        ensures
            old(self).mode_enforced() ==> final(self).mode_enforced(),
            final(self).input_dir == old(self).input_dir,
            final(self).input_size == old(self).input_size,
            final(self).output_dir == old(self).output_dir,
            old(self).running ==> r == StartDecision::Busy && final(self).logs@ == old(self).logs@
                && final(self).mode_choice == old(self).mode_choice && final(self).running,
            !old(self).running && old(self).input_dir is None ==> r == StartDecision::Refused
                && final(self).logs@.len() == old(self).logs@.len() + 1
                && final(self).logs@.drop_last() == old(self).logs@
                && final(self).logs@.last()@ == "Select an input folder before creating the VPK."@
                && final(self).mode_choice == old(self).mode_choice && !final(self).running,
            !old(self).running && old(self).input_dir is Some && old(self).output_dir is None ==> r
                == StartDecision::Refused && final(self).logs@.len() == old(self).logs@.len() + 1
                && final(self).logs@.drop_last() == old(self).logs@
                && final(self).logs@.last()@ == "Select an output folder before creating the VPK."@
                && final(self).mode_choice == old(self).mode_choice && !final(self).running,
            !old(self).running && old(self).input_dir is Some && old(self).output_dir is Some ==> {
                &&& final(self).mode_choice == (match old(self).input_size {
                    Some(s) => if exceeds_single_limit(s) { ModeChoice::Multi } else { old(self).mode_choice },
                    None => old(self).mode_choice,
                })
                &&& final(self).logs@.len() == old(self).logs@.len() + 1
                &&& final(self).logs@.drop_last() == old(self).logs@
                &&& name_missing ==> r == StartDecision::Refused && !final(self).running
                    && final(self).logs@.last()@ == "Could not derive output file name from the input folder."@
                &&& !name_missing ==> r == StartDecision::Start(PackOptions {
                    single: final(self).mode_choice == ModeChoice::Single,
                    multi: final(self).mode_choice == ModeChoice::Multi,
                    threads: None,
                }) && final(self).running && final(self).logs@.last()@ == "Starting packaging..."@
            },
    {
        if self.running {
            return StartDecision::Busy;
        }
        if self.input_dir.is_none() {
            self.logs.push("Select an input folder before creating the VPK.".to_string());
            return StartDecision::Refused;
        }
        if self.output_dir.is_none() {
            self.logs.push("Select an output folder before creating the VPK.".to_string());
            return StartDecision::Refused;
        }
        if let Some(size) = self.input_size {
            if size > SINGLE_VPK_LIMIT {
                self.mode_choice = ModeChoice::Multi;
            }
        }
        if name_missing {
            self.logs.push("Could not derive output file name from the input folder.".to_string());
            return StartDecision::Refused;
        }
        let single = match self.mode_choice {
            ModeChoice::Single => true,
            ModeChoice::Multi => false,
        };
        let options = PackOptions { single, multi: !single, threads: None };
        self.running = true;
        self.logs.push("Starting packaging...".to_string());
        StartDecision::Start(options)
    }

    /// A packing run has ended.
    pub fn finish_pack(&mut self)
        ensures
            !final(self).running,
            final(self).input_dir == old(self).input_dir,
            final(self).input_size == old(self).input_size,
            final(self).output_dir == old(self).output_dir,
            final(self).mode_choice == old(self).mode_choice,
            final(self).logs@ == old(self).logs@,
            old(self).mode_enforced() ==> final(self).mode_enforced(),
    {
        self.running = false;
    }

    /// The user picks a mode. Single-file is taken only where it is
    /// available; otherwise the mode stays multi-chunk.
    pub fn choose_mode(&mut self, choice: ModeChoice)
        ensures
            final(self).mode_choice == (if choice == ModeChoice::Single && !old(self).single_allowed() {
                ModeChoice::Multi
            } else {
                choice
            }),
            final(self).input_dir == old(self).input_dir,
            final(self).input_size == old(self).input_size,
            final(self).output_dir == old(self).output_dir,
            final(self).running == old(self).running,
            final(self).logs@ == old(self).logs@,
            final(self).mode_enforced(),
    {
        let single = match choice {
            ModeChoice::Single => true,
            ModeChoice::Multi => false,
        };
        if single && !self.single_mode_available() {
            self.mode_choice = ModeChoice::Multi;
        } else {
            self.mode_choice = choice;
        }
    }
}

} // verus!
