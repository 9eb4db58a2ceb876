//! The variables of a theme: what they are, how what the user sets is laid
//! over what the theme declares, and how they are written out.

use crate::text::text_of;
use vstd::prelude::*;

verus! {

/// A variable that a theme declares or a user sets.
#[derive(Debug)]
pub struct Variable {
    pub name: String,
    pub value: Option<String>,
    pub is_boolean: bool,
    pub comment: Option<String>,
}

/// What a `Variable` stands for.
pub struct VariableView {
    pub name: Seq<char>,
    pub value: Option<Seq<char>>,
    pub is_boolean: bool,
    pub comment: Option<Seq<char>>,
}

impl View for Variable {
    type V = VariableView;

    open spec fn view(&self) -> VariableView {
        VariableView {
            name: self.name@,
            value: text_of(self.value),
            is_boolean: self.is_boolean,
            comment: text_of(self.comment),
        }
    }
}

impl DeepView for Variable {
    type V = VariableView;

    open spec fn deep_view(&self) -> VariableView {
        self.view()
    }
}

/// The place of the first of `variables` that is called `name`: their number
/// where none is.
pub open spec fn place_of(variables: Seq<VariableView>, name: Seq<char>) -> int
    decreases variables.len(),
{
    if variables.len() == 0 || variables[0].name == name {
        0
    } else {
        1 + place_of(variables.skip(1), name)
    }
}

/// `existing` with `variable` laid over it: it takes the place of the first
/// variable of its name, or comes last where there is none.
pub open spec fn updated(existing: Seq<VariableView>, variable: VariableView) -> Seq<VariableView> {
    let at = place_of(existing, variable.name);
    if at < existing.len() {
        existing.update(at, variable)
    } else {
        existing.push(variable)
    }
}

/// `existing` with each of `new` laid over it, one after the other.
pub open spec fn updated_all(existing: Seq<VariableView>, new: Seq<VariableView>) -> Seq<
    VariableView,
>
    decreases new.len(),
{
    if new.len() == 0 {
        existing
    } else {
        updated(updated_all(existing, new.drop_last()), new.last())
    }
}

/// A place with no variable of that name before it, which holds one or is
/// the end, is the `place_of` the name; and the other way round.
pub proof fn lemma_place_of(variables: Seq<VariableView>, name: Seq<char>, at: int)
    requires
        0 <= at <= variables.len(),
        forall|k: int| 0 <= k < at ==> (#[trigger] variables[k]).name != name,
        at < variables.len() ==> variables[at].name == name,
    ensures
        place_of(variables, name) == at,
    decreases at,
{
    if at > 0 {
        let rest = variables.skip(1);
        assert(variables[0].name != name);
        assert forall|k: int| 0 <= k < at - 1 implies (#[trigger] rest[k]).name != name by {
            assert(rest[k] == variables[k + 1]);
        }
        lemma_place_of(rest, name, at - 1);
    }
}

/// The place in `variables` of the first that is called `name`, or their
/// number.
pub fn find_variable(variables: &Vec<Variable>, name: &String) -> (at: usize)
    ensures
        at == place_of(variables.deep_view(), name@),
        at <= variables.len(),
{
    let mut at: usize = 0;
    while at < variables.len() && !(variables[at].name == *name)
        invariant
            at <= variables.len(),
            forall|k: int| 0 <= k < at ==> (#[trigger] variables.deep_view()[k]).name != name@,
        decreases variables.len() - at,
    {
        at += 1;
    }
    proof {
        lemma_place_of(variables.deep_view(), name@, at as int);
    }
    at
}

/// Lays each of `new` over `existing`: a variable whose name `existing`
/// already holds takes the place of the first of that name, any other is
/// added at the end.
pub fn update_variables(existing: &mut Vec<Variable>, new: Vec<Variable>)
    ensures
        final(existing).deep_view() == updated_all(old(existing).deep_view(), new.deep_view()),
{
    let ghost items = new@;
    let ghost all = new.deep_view();
    let ghost start = existing.deep_view();
    proof {
        assert(all.take(0) =~= Seq::empty());
    }
    for variable in it: new
        invariant
            it.seq() == items,
            all.len() == items.len(),
            forall|k: int| 0 <= k < items.len() ==> all[k] == (#[trigger] items[k])@,
            existing.deep_view() == updated_all(start, all.take(it.index() as int)),
    {
        let ghost before = existing.deep_view();
        let ghost next = all.take(it.index() + 1);
        proof {
            assert(next.drop_last() =~= all.take(it.index() as int));
            assert(next.last() == variable@);
        }
        let index = find_variable(existing, &variable.name);
        if index < existing.len() {
            existing.set(index, variable);
            assert(existing.deep_view() =~= before.update(index as int, variable@));
        } else {
            existing.push(variable);
            assert(existing.deep_view() =~= before.push(variable@));
        }
    }
    proof {
        assert(all.take(all.len() as int) =~= all);
    }
}

/// Why what the user set cannot be laid over what a theme declares.
#[derive(Debug)]
pub enum VariableError {
    /// The theme declares no variable of this name.
    Unrecognized(String),
}

/// Whether one of `variables` is called `name`.
pub open spec fn declares(variables: Seq<VariableView>, name: Seq<char>) -> bool {
    place_of(variables, name) < variables.len()
}

/// Lays `new` over `existing` if `existing` holds a variable for every name
/// in `new`. Otherwise `existing` stays as it is, and the first name in `new`
/// that it does not hold is given back.
pub fn validate_variables(existing: &mut Vec<Variable>, new: Vec<Variable>) -> (result: Result<
    (),
    VariableError,
>)
    ensures
        match result {
            Ok(()) => {
                &&& forall|i: int|
                    0 <= i < new.len() ==> declares(
                        old(existing).deep_view(),
                        (#[trigger] new[i])@.name,
                    )
                &&& final(existing).deep_view() == updated_all(
                    old(existing).deep_view(),
                    new.deep_view(),
                )
            },
            Err(VariableError::Unrecognized(name)) => {
                &&& final(existing).deep_view() == old(existing).deep_view()
                &&& exists|i: int|
                    0 <= i < new.len() && (#[trigger] new[i])@.name == name@ && forall|k: int|
                        0 <= k < i ==>
                            declares(old(existing).deep_view(), (#[trigger] new[k])@.name)
                &&& !declares(old(existing).deep_view(), name@)
            },
        },
{
    let mut i: usize = 0;
    while i < new.len()
        invariant
            i <= new.len(),
            *existing == *old(existing),
            forall|k: int| 0 <= k < i ==> declares(existing.deep_view(), (#[trigger] new[k])@.name),
        decreases new.len() - i,
    {
        if find_variable(existing, &new[i].name) >= existing.len() {
            return Err(VariableError::Unrecognized(new[i].name.clone()));
        }
        i += 1;
    }
    update_variables(existing, new);
    Ok(())
}

/// What a theme's variables are once the user's have been laid over them:
/// `cli_options` over `user_variables`, and the outcome over `variables`,
/// which must hold every name that the outcome does.
pub fn merge_and_validate_variables(
    variables: Vec<Variable>,
    user_variables: Vec<Variable>,
    cli_options: Vec<Variable>,
) -> (result: Result<Vec<Variable>, VariableError>)
    ensures
        ({
            let set = updated_all(user_variables.deep_view(), cli_options.deep_view());
            match result {
                Ok(merged) => {
                    &&& forall|i: int|
                        0 <= i < set.len() ==> declares(
                            variables.deep_view(),
                            (#[trigger] set[i]).name,
                        )
                    &&& merged.deep_view() == updated_all(variables.deep_view(), set)
                },
                Err(VariableError::Unrecognized(name)) => {
                    &&& !declares(variables.deep_view(), name@)
                    &&& exists|i: int|
                        0 <= i < set.len() && (#[trigger] set[i]).name == name@ && forall|k: int|
                            0 <= k < i ==> declares(variables.deep_view(), (#[trigger] set[k]).name)
                },
            }
        }),
{
    let ghost declared = variables.deep_view();
    let mut variables = variables;
    let mut user_variables = user_variables;
    update_variables(&mut user_variables, cli_options);
    let ghost set = user_variables.deep_view();
    let ghost given = user_variables@;
    match validate_variables(&mut variables, user_variables) {
        Ok(()) => {
            proof {
                assert forall|i: int| 0 <= i < set.len() implies declares(
                    declared,
                    (#[trigger] set[i]).name,
                ) by {
                    assert(set[i] == given[i]@);
                }
            }
            Ok(variables)
        },
        Err(VariableError::Unrecognized(name)) => {
            proof {
                let i = choose|i: int|
                    0 <= i < given.len() && (#[trigger] given[i])@.name == name@ && forall|k: int|
                        0 <= k < i ==> declares(
                            declared,
                            (#[trigger] given[k])@.name,
                        );
                assert(set[i].name == name@);
                assert forall|k: int| 0 <= k < i implies declares(
                    declared,
                    (#[trigger] set[k]).name,
                ) by {
                    assert(set[k] == given[k]@);
                }
            }
            Err(VariableError::Unrecognized(name))
        },
    }
}

/// Whether no two of `variables` share a name.
pub open spec fn names_apart(variables: Seq<VariableView>) -> bool {
    forall|i: int, j: int|
        0 <= i < j < variables.len() ==> (#[trigger] variables[i]).name != (
        #[trigger] variables[j]).name
}

/// No variable before `place_of` has the name, and the one there has it.
pub proof fn lemma_place_of_name(variables: Seq<VariableView>, name: Seq<char>)
    ensures
        0 <= place_of(variables, name) <= variables.len(),
        declares(variables, name) ==> variables[place_of(variables, name)].name == name,
        forall|k: int| 0 <= k < place_of(variables, name) ==>
            (#[trigger] variables[k]).name != name,
    decreases variables.len(),
{
    if variables.len() > 0 && variables[0].name != name {
        let rest = variables.skip(1);
        lemma_place_of_name(rest, name);
        assert forall|k: int| 0 <= k < place_of(variables, name) implies (
        #[trigger] variables[k]).name != name by {
            if k > 0 {
                assert(variables[k] == rest[k - 1]);
            }
        }
    }
}

/// Laying variables over others whose names are apart leaves the names
/// apart, whatever is laid over them.
pub proof fn lemma_updated_all_names_apart(existing: Seq<VariableView>, new: Seq<VariableView>)
    requires
        names_apart(existing),
    ensures
        names_apart(updated_all(existing, new)),
    decreases new.len(),
{
    if new.len() > 0 {
        let before = updated_all(existing, new.drop_last());
        let after = updated(before, new.last());
        lemma_updated_all_names_apart(existing, new.drop_last());
        lemma_place_of_name(before, new.last().name);
        let at = place_of(before, new.last().name);
        assert forall|i: int, j: int| 0 <= i < j < after.len() implies
            (#[trigger] after[i]).name != (
        #[trigger] after[j]).name by {
            if at < before.len() {
                assert(after[i].name == before[i].name);
                assert(after[j].name == before[j].name);
            } else {
                assert(after[i] == before[i]);
                if j < before.len() {
                    assert(after[j] == before[j]);
                }
            }
        }
    }
}

/// The variables with each name once: where a name comes again, the later
/// variable takes the place of the earlier one.
pub fn variables_by_name(variables: Vec<Variable>) -> (unique: Vec<Variable>)
    ensures
        unique.deep_view() == updated_all(Seq::empty(), variables.deep_view()),
        names_apart(unique.deep_view()),
{
    let mut unique: Vec<Variable> = Vec::new();
    proof {
        assert(unique.deep_view() =~= Seq::empty());
        lemma_updated_all_names_apart(Seq::empty(), variables.deep_view());
    }
    update_variables(&mut unique, variables);
    unique
}

/// Those of `variables` that are switches, if `boolean`, or those that are
/// not, in their order.
pub open spec fn chosen(variables: Seq<VariableView>, boolean: bool) -> Seq<VariableView>
    decreases variables.len(),
{
    if variables.len() == 0 {
        Seq::empty()
    } else if variables.last().is_boolean == boolean {
        chosen(variables.drop_last(), boolean).push(variables.last())
    } else {
        chosen(variables.drop_last(), boolean)
    }
}

/// Parts the switches from the variables that take a value, keeping the
/// order of each.
pub fn separate_variables(variables: Vec<Variable>) -> (parted: (Vec<Variable>, Vec<Variable>))
    ensures
        parted.0.deep_view() == chosen(variables.deep_view(), true),
        parted.1.deep_view() == chosen(variables.deep_view(), false),
{
    let mut bool_variables: Vec<Variable> = Vec::new();
    let mut non_bool_variables: Vec<Variable> = Vec::new();
    let ghost items = variables@;
    let ghost all = variables.deep_view();
    proof {
        assert(all.take(0) =~= Seq::empty());
        assert(bool_variables.deep_view() =~= Seq::empty());
        assert(non_bool_variables.deep_view() =~= Seq::empty());
    }
    for variable in it: variables
        invariant
            it.seq() == items,
            all.len() == items.len(),
            forall|k: int| 0 <= k < items.len() ==> all[k] == (#[trigger] items[k])@,
            bool_variables.deep_view() == chosen(all.take(it.index() as int), true),
            non_bool_variables.deep_view() == chosen(all.take(it.index() as int), false),
    {
        let ghost bools = bool_variables.deep_view();
        let ghost others = non_bool_variables.deep_view();
        proof {
            let next = all.take(it.index() + 1);
            assert(next.drop_last() =~= all.take(it.index() as int));
            assert(next.last() == variable@);
        }
        if variable.is_boolean {
            bool_variables.push(variable);
            assert(bool_variables.deep_view() =~= bools.push(variable@));
        } else {
            non_bool_variables.push(variable);
            assert(non_bool_variables.deep_view() =~= others.push(variable@));
        }
    }
    proof {
        assert(all.take(all.len() as int) =~= all);
    }
    (bool_variables, non_bool_variables)
}

/// Whether `name` is one of the settings that steer the run itself and are
/// not handed on to the theme.
pub open spec fn is_setting(name: Seq<char>) -> bool {
    name == "dir"@ || name == "depth"@ || name == "extension"@
}

/// What is written out for one variable: nothing for a setting; for a
/// switch, the line that turns it on; for a variable with a value, the line
/// that redefines it, and an empty line.
pub open spec fn definition(variable: VariableView) -> Seq<char> {
    if is_setting(variable.name) {
        Seq::empty()
    } else if variable.is_boolean {
        "\\"@ + variable.name + "true\n"@
    } else if let Some(value) = variable.value {
        "\\renewcommand{\\"@ + variable.name + "}{"@ + value + "}\n\n"@
    } else {
        Seq::empty()
    }
}

/// What is written out for the variables, one after another.
pub open spec fn definitions(variables: Seq<VariableView>) -> Seq<char>
    decreases variables.len(),
{
    if variables.len() == 0 {
        Seq::empty()
    } else {
        definitions(variables.drop_last()) + definition(variables.last())
    }
}

/// The lines that hand the variables on to the theme.
pub fn write_variables(variables: &Vec<Variable>) -> (lines: String)
    ensures
        lines@ == definitions(variables.deep_view()),
{
    let mut lines = String::new();
    let ghost all = variables.deep_view();
    proof {
        assert(all.take(0) =~= Seq::empty());
    }
    let mut i: usize = 0;
    while i < variables.len()
        invariant
            i <= variables.len(),
            all == variables.deep_view(),
            lines@ == definitions(all.take(i as int)),
        decreases variables.len() - i,
    {
        let variable = &variables[i];
        let ghost before = lines@;
        proof {
            let next = all.take(i + 1);
            assert(next.drop_last() =~= all.take(i as int));
            assert(next.last() == variable@);
        }
        let setting = variable.name == "dir".to_string() || variable.name == "depth".to_string()
            || variable.name == "extension".to_string();
        if setting {
            assert(lines@ =~= before + definition(variable@));
        } else if variable.is_boolean {
            lines.append("\\");
            lines.append(variable.name.as_str());
            lines.append("true\n");
            assert(lines@ =~= before + definition(variable@));
        } else {
            match &variable.value {
                Some(value) => {
                    lines.append("\\renewcommand{\\");
                    lines.append(variable.name.as_str());
                    lines.append("}{");
                    lines.append(value.as_str());
                    lines.append("}\n\n");
                    assert(lines@ =~= before + definition(variable@));
                },
                None => {
                    assert(lines@ =~= before + definition(variable@));
                },
            }
        }
        i += 1;
    }
    proof {
        assert(all.take(all.len() as int) =~= all);
    }
    lines
}

} // verus!
