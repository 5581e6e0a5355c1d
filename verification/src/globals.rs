use vstd::prelude::*;

verus! {

/// What the user is asked before the first run sets the directories up.
pub const ASK_FOR_SETUP_MSG: &'static str = "Kaeru isn't setup right now, want to run setup? [Y/n]: ";

/// The message for an operation on a generation that is not there.
pub const ERR_INVALID_GENID: &'static str =
    "Specified generation ID is invalid, use kaeru gen list to list all generations";

/// What the user is told once the directories are set up.
pub const SETUP_COMPLETE: &'static str = "Setup finished, run `kaeru help` to get started.";

/// The message for a commit that would record nothing new.
pub const ERR_NO_CHANGES_TO_COMMIT: &'static str = "No changes to commit, cannot create generation.";

/// What a manager configuration file's name ends with.
pub const MANAGER_FILE_EXT: &'static str = ".toml";

/// What a generation record's name ends with.
pub const GENERATION_FILE_EXT: &'static str = ".json";

/// The configuration file that the first run writes.
pub const DEFAULT_CONFIG: &'static str = "\n[managers]\n# call_order = [\"manager1\", \"manager2\", \"manager3\"]\n\n[packages]\n# package_order = [\"essentials\", \"dev\", \"games\"]\n# These will be installed in the order provided.\n# The unspecified ones will be installed after these.\n";

} // verus!
