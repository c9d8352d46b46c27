//! The configuration, resolved once at startup, and the choice of what to
//! apply for each song.
use vstd::prelude::*;
use crate::matcher::{first_match, find_match, name_matches, names_view};

verus! {

/// What shell-style expansion of `template` gives, with `home` as the home
/// directory and `vars` as the environment.
pub uninterp spec fn shell_expanded(
    template: Seq<char>,
    home: Option<Seq<char>>,
    vars: Seq<(Seq<char>, Seq<char>)>,
) -> Seq<char>;

/// The characters of an optional string.
pub open spec fn opt_view(o: Option<String>) -> Option<Seq<char>> {
    match o {
        Some(s) => Some(s@),
        None => None,
    }
}

/// The environment as pairs of names and values.
pub open spec fn vars_view(vars: Seq<(String, String)>) -> Seq<(Seq<char>, Seq<char>)> {
    vars.map_values(|p: (String, String)| (p.0@, p.1@))
}

/// `s` holds no `'$'`, so no variable is expanded in it.
pub open spec fn no_variables(s: Seq<char>) -> bool {
    forall|i: int| 0 <= i < s.len() ==> #[trigger] s[i] != '$'
}

/// `s` holds no `'$'` and does not begin with `~\`, which Windows builds
/// expand too: only a `~` alone or before `/` can change in it.
pub open spec fn only_tilde_expands(s: Seq<char>) -> bool {
    no_variables(s) && !(s.len() > 1 && s[0] == '~' && s[1] == '\\')
}

/// A leading `~` that stands alone or before a `/` replaced by the home
/// directory, where there is one.
pub open spec fn tilde_expanded(t: Seq<char>, home: Option<Seq<char>>) -> Seq<char> {
    if t.len() > 0 && t[0] == '~' && (t.len() == 1 || t[1] == '/') {
        match home {
            Some(h) => h + t.skip(1),
            None => t,
        }
    } else {
        t
    }
}

/// The value of the first variable of `vars` named `key`.
pub open spec fn var_lookup(vars: Seq<(Seq<char>, Seq<char>)>, key: Seq<char>) -> Option<
    Seq<char>,
>
    decreases vars.len(),
{
    if vars.len() == 0 {
        None
    } else if vars[0].0 == key {
        Some(vars[0].1)
    } else {
        var_lookup(vars.skip(1), key)
    }
}

/// The value of the first variable of `vars` named `key`.
pub fn lookup_var(vars: &Vec<(String, String)>, key: &str) -> (r: Option<String>)
    ensures
        opt_view(r) == var_lookup(vars_view(vars@), key@),
{
    let ghost v = vars_view(vars@);
    let mut i: usize = 0;
    assert(v.skip(0) =~= v);
    while i < vars.len()
        invariant
            i <= vars@.len() == v.len(),
            v == vars_view(vars@),
            var_lookup(v, key@) == var_lookup(v.skip(i as int), key@),
        decreases vars@.len() - i,
    {
        assert(v.skip(i as int)[0] == v[i as int]);
        assert(v[i as int] == (vars@[i as int].0@, vars@[i as int].1@));
        if crate::text::same_text(vars[i].0.as_str(), key) {
            return Some(vars[i].1.clone());
        }
        assert(v.skip(i as int).skip(1) =~= v.skip(i + 1));
        i = i + 1;
    }
    None
}

/// Relies on shellexpand::full_with_context_no_errors, which expands `~` and
/// `$NAME` forms, leaving the unresolved ones as they are. Where the template
/// holds no `$`, it only expands a leading `~` before `/` or at the end, and
/// on Windows builds before `\` too; the second clause leaves that case out.
#[verifier::external_body]
fn expand(template: &str, home: &Option<String>, vars: &Vec<(String, String)>) -> (r: String)
    ensures
        r@ == shell_expanded(template@, opt_view(*home), vars_view(vars@)),
        only_tilde_expands(template@) ==> r@ == tilde_expanded(template@, opt_view(*home)),
{
    shellexpand::full_with_context_no_errors(
        template,
        || home.as_deref(),
        |key: &str| lookup_var(vars, key),
    ).into_owned()
}

/// The wallpaper directory that is used where none is given.
pub open spec fn default_wallpapers_dir() -> Seq<char> {
    "~/Pictures/wallpapers/"@
}

/// Where wallpapers are looked for, and what to apply where none matches.
pub struct Config {
    pub wallpapers_dir: String,
    pub default: Option<String>,
}

/// What to do for one song.
pub enum Action {
    /// Apply the image at this position of the scanned names.
    ApplyMatch(usize),
    /// Apply the configured default image.
    ApplyDefault(String),
    /// Leave the wallpaper as it is.
    Nothing,
}

/// What an [`Action`] says, over plain values.
pub ghost enum ActionView {
    ApplyMatch(int),
    ApplyDefault(Seq<char>),
    Nothing,
}

impl View for Action {
    type V = ActionView;

    open spec fn view(&self) -> ActionView {
        match self {
            Action::ApplyMatch(i) => ActionView::ApplyMatch(*i as int),
            Action::ApplyDefault(p) => ActionView::ApplyDefault(p@),
            Action::Nothing => ActionView::Nothing,
        }
    }
}

/// The first matching image if there is one; else the default, if any; else
/// nothing.
pub open spec fn planned_action(
    default: Option<Seq<char>>,
    names: Seq<Seq<char>>,
    artist: Seq<char>,
) -> ActionView {
    match first_match(names, artist) {
        Some(i) => ActionView::ApplyMatch(i),
        None => match default {
            Some(p) => ActionView::ApplyDefault(p),
            None => ActionView::Nothing,
        },
    }
}

impl Config {
    /// The configuration from the command-line overrides: the wallpaper
    /// directory (`~/Pictures/wallpapers/` where none is given) and the
    /// default image, each shell-expanded with `home` and `vars`.
    pub fn from_options(
        wallpapers_dir: Option<String>,
        default: Option<String>,
        home: Option<String>,
        vars: &Vec<(String, String)>,
    ) -> (r: Config)
        ensures
            ({
                let dir = match wallpapers_dir {
                    Some(d) => d@,
                    None => default_wallpapers_dir(),
                };
                &&& r.wallpapers_dir@ == shell_expanded(dir, opt_view(home), vars_view(vars@))
                &&& only_tilde_expands(dir) ==> r.wallpapers_dir@ == tilde_expanded(dir, opt_view(home))
            }),
            opt_view(r.default) == match default {
                Some(p) => Some(shell_expanded(p@, opt_view(home), vars_view(vars@))),
                None => None,
            },
            match default {
                Some(p) => only_tilde_expands(p@) ==> opt_view(r.default) == Some(
                    tilde_expanded(p@, opt_view(home)),
                ),
                None => true,
            },
    {
        let dir = match wallpapers_dir {
            Some(d) => d,
            None => String::from_str("~/Pictures/wallpapers/"),
        };
        let wallpapers_dir = expand(dir.as_str(), &home, vars);
        let default = match default {
            Some(p) => Some(expand(p.as_str(), &home, vars)),
            None => None,
        };
        Config { wallpapers_dir, default }
    }

    /// What to do for a song by `artist`, given the names of the files found
    /// under the wallpaper directory in the order they were found.
    pub fn action_for(&self, names: &Vec<String>, artist: &str) -> (r: Action)
        ensures
            r@ == planned_action(opt_view(self.default), names_view(names@), artist@),
    {
        match find_match(names, artist) {
            Some(i) => Action::ApplyMatch(i),
            None => match &self.default {
                Some(p) => Action::ApplyDefault(p.clone()),
                None => Action::Nothing,
            },
        }
    }
}

/// With no default and no matching name, nothing is applied.
pub proof fn lemma_no_match_no_default(names: Seq<Seq<char>>, artist: Seq<char>)
    requires
        forall|i: int| 0 <= i < names.len() ==> !name_matches(#[trigger] names[i], artist),
    ensures
        planned_action(None, names, artist) == ActionView::Nothing,
{
    if let Some(i) = first_match(names, artist) {
        assert(name_matches(names[i], artist));
    }
}

/// With a default and no matching name, the default is applied.
pub proof fn lemma_no_match_uses_default(
    names: Seq<Seq<char>>,
    artist: Seq<char>,
    default: Seq<char>,
)
    requires
        forall|i: int| 0 <= i < names.len() ==> !name_matches(#[trigger] names[i], artist),
    ensures
        planned_action(Some(default), names, artist) == ActionView::ApplyDefault(default),
{
    if let Some(i) = first_match(names, artist) {
        assert(name_matches(names[i], artist));
    }
}

/// A matching name is applied rather than the default, whatever the default.
pub proof fn lemma_match_precedes_default(
    names: Seq<Seq<char>>,
    artist: Seq<char>,
    default: Option<Seq<char>>,
    i: int,
)
    requires
        0 <= i < names.len(),
        name_matches(names[i], artist),
    ensures
        planned_action(default, names, artist) matches ActionView::ApplyMatch(j) && 0 <= j <= i
            && name_matches(names[j], artist),
{
    crate::matcher::lemma_match_found(names, artist, i);
}

} // verus!
