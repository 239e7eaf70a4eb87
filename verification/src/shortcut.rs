//! The persisted entity: a named shortcut, and the mathematical model a
//! collection of shortcuts is specified against.

use vstd::prelude::*;

verus! {

/// A named alias for a launchable command. `run_command` is an ordered
/// sequence of tokens; token 0 is conventionally the program or a filesystem
/// path, the rest are literal arguments.
#[derive(Debug)]
pub struct Shortcut {
    /// The name of the project the shortcut belongs to; the lookup key.
    pub project_name: String,
    /// The command (with its arguments) that runs the project.
    pub run_command: Vec<String>,
}

/// The mathematical model of a [`Shortcut`]: its name and command as
/// sequences of characters.
pub struct ShortcutModel {
    pub name: Seq<char>,
    pub command: Seq<Seq<char>>,
}

impl View for Shortcut {
    type V = ShortcutModel;

    open spec fn view(&self) -> ShortcutModel {
        ShortcutModel { name: self.project_name@, command: self.run_command.deep_view() }
    }
}

impl DeepView for Shortcut {
    type V = ShortcutModel;

    open spec fn deep_view(&self) -> ShortcutModel {
        self.view()
    }
}

impl Clone for Shortcut {
    /// A clone carries the same name and the same command.
    fn clone(&self) -> (r: Self)
        ensures
            r@ == self@,
    {
        let run_command = self.run_command.clone();
        let r = Shortcut { project_name: self.project_name.clone(), run_command };
        assert(r@.command =~= self@.command);
        r
    }
}

} // verus!
