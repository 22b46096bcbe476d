//! Descriptor strings for the configuration-display command that fronts
//! the repository tooling: its name with accepted aliases, its help text,
//! and its synopsis line.

use vstd::prelude::*;

verus! {

/// The command's full name followed by its accepted aliases.
pub fn name() -> (r: &'static str)
    ensures
        r@ == "config|showconfig|debugconfig|conf|confi"@,
{
    "config|showconfig|debugconfig|conf|confi"
}

/// The command's help text.
pub fn doc() -> (r: &'static str)
    ensures
        r@ == "show config settings\n\n    With no arguments, print names and values of all config items.\n\n    With one argument of the form section.name, print just the value\n    of that config item.\n\n    With multiple arguments, print names and values of all config\n    items with matching section names.\n\n    With --edit, start an editor on the user-level config file. With\n    --global, edit the system-wide config file. With --local, edit the\n    repository-level config file.\n\n    With --debug, the source (filename and line number) is printed\n    for each config item.\n\n    Returns 0 on success, 1 if NAME does not exist.\n\n    "@,
{
    proof {
        reveal_strlit(
            "show config settings\n\n    With no arguments, print names and values of all config items.\n\n    With one argument of the form section.name, print just the value\n    of that config item.\n\n    With multiple arguments, print names and values of all config\n    items with matching section names.\n\n    With --edit, start an editor on the user-level config file. With\n    --global, edit the system-wide config file. With --local, edit the\n    repository-level config file.\n\n    With --debug, the source (filename and line number) is printed\n    for each config item.\n\n    Returns 0 on success, 1 if NAME does not exist.\n\n    ",
        );
    }
    "show config settings\n\n    With no arguments, print names and values of all config items.\n\n    With one argument of the form section.name, print just the value\n    of that config item.\n\n    With multiple arguments, print names and values of all config\n    items with matching section names.\n\n    With --edit, start an editor on the user-level config file. With\n    --global, edit the system-wide config file. With --local, edit the\n    repository-level config file.\n\n    With --debug, the source (filename and line number) is printed\n    for each config item.\n\n    Returns 0 on success, 1 if NAME does not exist.\n\n    "
}

/// The command's synopsis line.
pub fn synopsis() -> (r: Option<&'static str>)
    ensures
        match r {
            Option::Some(s) => s@ == "[-u] [NAME]..."@,
            Option::None => false,
        },
{
    Option::Some("[-u] [NAME]...")
}

/// The short name used when reporting a fallback.
pub fn short_name() -> (r: &'static str)
    ensures
        r@ == "config"@,
{
    "config"
}

} // verus!
