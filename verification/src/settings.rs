//! Where themes are kept.

use vstd::prelude::*;

verus! {

/// The directory of the theme `name` below the directory `themes` that holds
/// all themes.
pub fn theme_dir(themes: &str, name: &str) -> (dir: String)
    ensures
        dir@ == themes@ + "/"@ + name@,
{
    let mut dir = themes.to_string();
    dir.append("/");
    dir.append(name);
    dir
}

/// The file in which the theme `name` declares its variables.
pub fn variables_file(themes: &str, name: &str) -> (file: String)
    ensures
        file@ == themes@ + "/"@ + name@ + "/variables.tex"@,
{
    let mut file = theme_dir(themes, name);
    file.append("/variables.tex");
    file
}

} // verus!
