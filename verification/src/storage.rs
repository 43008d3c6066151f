//! How the storage is configured.
use vstd::prelude::*;
use vstd::string::StringExecFns;

verus! {

/// The storage that is used where none is configured.
pub open spec fn default_url() -> Seq<char> {
    "file:///tmp/arroyo"@
}

/// The URL of the storage, given the value of the variable that configures it.
pub fn storage_url(configured: Option<String>) -> (url: String)
    ensures
        url@ == match configured {
            Some(value) => value@,
            None => default_url(),
        },
{
    match configured {
        Some(value) => value,
        None => String::from_str("file:///tmp/arroyo"),
    }
}

/// What is said where there is no way to reach the storage at `url`.
pub fn storage_error(url: &str) -> (message: String)
    ensures
        message@ == "failed to construct checkpoint backend for URL "@ + url@,
{
    let mut message: String = String::from_str("failed to construct checkpoint backend for URL ");
    message.append(url);
    message
}

/// What a list of variables says, over mathematical values.
pub open spec fn variable_views(variables: Seq<(String, Option<String>)>) -> Seq<
    (Seq<char>, Option<Seq<char>>),
> {
    variables.map_values(
        |v: (String, Option<String>)|
            (
                v.0@,
                match v.1 {
                    Some(value) => Some(value@),
                    None => None,
                },
            ),
    )
}

/// What a list of settings says, over mathematical values.
pub open spec fn setting_views(settings: Seq<(String, String)>) -> Seq<(Seq<char>, Seq<char>)> {
    settings.map_values(|s: (String, String)| (s.0@, s.1@))
}

/// Those of `variables` that are set, with their values and in order.
pub open spec fn set_variables(variables: Seq<(Seq<char>, Option<Seq<char>>)>) -> Seq<
    (Seq<char>, Seq<char>),
> {
    variables.filter(|v: (Seq<char>, Option<Seq<char>>)| v.1 is Some).map_values(
        |v: (Seq<char>, Option<Seq<char>>)| (v.0, v.1->0),
    )
}

proof fn lemma_set_variables_push(
    variables: Seq<(Seq<char>, Option<Seq<char>>)>,
    variable: (Seq<char>, Option<Seq<char>>),
)
    ensures
        set_variables(variables.push(variable)) == match variable.1 {
            Some(value) => set_variables(variables).push((variable.0, value)),
            None => set_variables(variables),
        },
{
    reveal(Seq::filter);
    assert(variables.push(variable).drop_last() =~= variables);
    assert(set_variables(variables.push(variable)) =~= match variable.1 {
        Some(value) => set_variables(variables).push((variable.0, value)),
        None => set_variables(variables),
    });
}

/// The settings that another process needs in order to reach the same storage. `variables`
/// are the names of the variables that hold them, each with its value if it is set.
pub fn get_storage_env_vars(variables: Vec<(String, Option<String>)>) -> (settings: Vec<
    (String, String),
>)
    ensures
        setting_views(settings@) == set_variables(variable_views(variables@)),
{
    let ghost all = variable_views(variables@);
    let mut settings: Vec<(String, String)> = Vec::new();
    assert(setting_views(settings@) =~= set_variables(all.take(0))) by {
        reveal(Seq::filter);
    }
    for variable in it: variables
        invariant
            it.seq() == variables@,
            all == variable_views(variables@),
            setting_views(settings@) == set_variables(all.take(it.index() as int)),
    {
        let ghost before = settings@;
        proof {
            assert(all.take(it.index() as int).push(all[it.index() as int]) =~= all.take(
                it.index() + 1,
            ));
            lemma_set_variables_push(all.take(it.index() as int), all[it.index() as int]);
        }
        if let Some(value) = variable.1 {
            settings.push((variable.0, value));
            assert(setting_views(settings@) =~= setting_views(before).push(
                (variable.0@, value@),
            ));
        }
    }
    assert(all.take(all.len() as int) =~= all);
    settings
}

/// A variable that is set is handed on behind those before it, with its name and value; one that
/// is not set makes no difference.
pub proof fn set_variables_are_handed_on(
    variables: Seq<(Seq<char>, Option<Seq<char>>)>,
    name: Seq<char>,
    value: Seq<char>,
)
    ensures
        set_variables(Seq::empty()) == Seq::<(Seq<char>, Seq<char>)>::empty(),
        set_variables(variables.push((name, Some(value)))) == set_variables(variables).push(
            (name, value),
        ),
        set_variables(variables.push((name, None))) == set_variables(variables),
{
    reveal(Seq::filter);
    assert(set_variables(Seq::empty()) =~= Seq::<(Seq<char>, Seq<char>)>::empty());
    lemma_set_variables_push(variables, (name, Some(value)));
    lemma_set_variables_push(variables, (name, None));
}

/// Without a setting the storage is a directory below the one for temporary files.
pub proof fn the_default_storage_is_local()
    ensures
        default_url() == "file:///tmp/arroyo"@,
{
}

/// Variables and settings are seen as they are.
pub proof fn settings_are_seen_as_they_are(
    variables: Seq<(String, Option<String>)>,
    settings: Seq<(String, String)>,
    i: int,
)
    ensures
        variable_views(variables).len() == variables.len(),
        setting_views(settings).len() == settings.len(),
        0 <= i < variables.len() ==> variable_views(variables)[i].0 == variables[i].0@,
        0 <= i < variables.len() ==> match variables[i].1 {
            Some(value) => variable_views(variables)[i].1 == Some(value@),
            None => variable_views(variables)[i].1 is None,
        },
        0 <= i < settings.len() ==> setting_views(settings)[i] == (settings[i].0@, settings[i].1@),
{
}

} // verus!
