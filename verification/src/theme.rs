//! The variables that a theme declares.

use crate::parser_tex::{declaration_at, latex_parser};
use crate::text::{chars_of, split, split_chars};
use crate::variable::{Variable, VariableView};
use vstd::prelude::*;

verus! {

/// Why a theme has no variables to give.
#[derive(Debug)]
pub enum ThemeError {
    /// No theme of this name is among the available ones.
    NotFound { theme: String, available: Vec<String> },
}

/// What the lines declare, in their order. A line that starts with `%` is
/// a comment; a line that declares nothing is passed over.
pub open spec fn declared_in(lines: Seq<Seq<char>>) -> Seq<VariableView>
    decreases lines.len(),
{
    if lines.len() == 0 {
        Seq::empty()
    } else {
        let before = declared_in(lines.drop_last());
        let line = lines.last();
        if line.len() > 0 && line[0] == '%' {
            before
        } else if let Some((variable, _)) = declaration_at(line) {
            before.push(variable)
        } else {
            before
        }
    }
}

/// What a variables file of this content declares.
pub open spec fn declared(content: Seq<char>) -> Seq<VariableView> {
    declared_in(split(content, '\n'))
}

/// Whether `name` is among `names`.
pub open spec fn listed(names: Seq<Seq<char>>, name: Seq<char>) -> bool {
    exists|i: int| 0 <= i < names.len() && #[trigger] names[i] == name
}

/// Reads the variables that a variables file of this content declares.
pub fn read_theme_variables(content: &str) -> (variables: Vec<Variable>)
    ensures
        variables.deep_view() == declared(content@),
{
    let chars = chars_of(content);
    let lines = split_chars(&chars, chars.len(), '\n');
    let ghost all = lines.deep_view();
    let mut variables: Vec<Variable> = Vec::new();
    proof {
        assert(chars@.take(chars.len() as int) =~= content@);
        assert(all.take(0) =~= Seq::empty());
        assert(variables.deep_view() =~= Seq::empty());
    }
    let mut i: usize = 0;
    while i < lines.len()
        invariant
            i <= lines.len(),
            all == lines.deep_view(),
            variables.deep_view() == declared_in(all.take(i as int)),
        decreases lines.len() - i,
    {
        let line = &lines[i];
        let ghost before = variables.deep_view();
        proof {
            let next = all.take(i + 1);
            assert(next.drop_last() =~= all.take(i as int));
            assert(next.last() == line@);
        }
        let comment = !line.as_str().is_empty() && line.as_str().get_char(0) == '%';
        if !comment {
            match latex_parser(line.as_str()) {
                Some((_, variable)) => {
                    variables.push(variable);
                    assert(variables.deep_view() =~= before.push(variables@.last()@));
                },
                None => {},
            }
        }
        i += 1;
    }
    proof {
        assert(all.take(all.len() as int) =~= all);
    }
    variables
}

/// The variables of the theme `theme`, which must be one of `themes_list`:
/// what its variables file, of the content `content`, declares.
pub fn theme_variables(theme: &str, themes_list: &Vec<String>, content: &str) -> (result: Result<
    Vec<Variable>,
    ThemeError,
>)
    ensures
        match result {
            Ok(variables) => {
                &&& listed(themes_list.deep_view(), theme@)
                &&& variables.deep_view() == declared(content@)
            },
            Err(ThemeError::NotFound { theme: missing, available }) => {
                &&& !listed(themes_list.deep_view(), theme@)
                &&& missing@ == theme@
                &&& available.deep_view() == themes_list.deep_view()
            },
        },
{
    let wanted = theme.to_string();
    let mut i: usize = 0;
    while i < themes_list.len() && !(themes_list[i] == wanted)
        invariant
            i <= themes_list.len(),
            wanted@ == theme@,
            forall|k: int| 0 <= k < i ==> #[trigger] themes_list.deep_view()[k] != theme@,
        decreases themes_list.len() - i,
    {
        i += 1;
    }
    if i >= themes_list.len() {
        let available = themes_list.clone();
        proof {
            assert(available.deep_view() =~= themes_list.deep_view());
        }
        return Err(ThemeError::NotFound { theme: wanted, available });
    }
    proof {
        assert(themes_list.deep_view()[i as int] == theme@);
    }
    Ok(read_theme_variables(content))
}

} // verus!
