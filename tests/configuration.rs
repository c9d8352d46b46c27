use artist_wallpaper::config::{lookup_var, Action, Config};

fn vars(v: &[(&str, &str)]) -> Vec<(String, String)> {
    v.iter().map(|(k, x)| (k.to_string(), x.to_string())).collect()
}

#[test]
fn home_is_expanded_in_directory() {
    let c = Config::from_options(Some("~/Pictures/wp".to_string()), None, Some("/home/u".to_string()), &vars(&[]));
    assert_eq!(c.wallpapers_dir, "/home/u/Pictures/wp");
    assert_eq!(c.default, None);
}

#[test]
fn directory_defaults_to_pictures_wallpapers() {
    let c = Config::from_options(None, None, Some("/home/u".to_string()), &vars(&[]));
    assert_eq!(c.wallpapers_dir, "/home/u/Pictures/wallpapers/");
}

#[test]
fn variables_are_expanded_and_unknown_ones_kept() {
    let env = vars(&[("PICS", "/data/pics"), ("NAME", "x"), ("NAME", "y")]);
    let c = Config::from_options(
        Some("$PICS/walls".to_string()),
        Some("${NAME}/$MISSING/d.png".to_string()),
        Some("/home/u".to_string()),
        &env,
    );
    assert_eq!(c.wallpapers_dir, "/data/pics/walls");
    assert_eq!(c.default, Some("x/$MISSING/d.png".to_string()));
}

#[test]
fn without_home_tilde_stays() {
    let c = Config::from_options(Some("~/w".to_string()), Some("~/d.png".to_string()), None, &vars(&[]));
    assert_eq!(c.wallpapers_dir, "~/w");
    assert_eq!(c.default, Some("~/d.png".to_string()));
}

#[test]
fn tilde_of_other_user_is_kept() {
    let c = Config::from_options(Some("~bob/w".to_string()), None, Some("/home/u".to_string()), &vars(&[]));
    assert_eq!(c.wallpapers_dir, "~bob/w");
}

#[test]
fn lookup_takes_first_binding() {
    let env = vars(&[("A", "1"), ("B", "2"), ("A", "3")]);
    assert_eq!(lookup_var(&env, "A"), Some("1".to_string()));
    assert_eq!(lookup_var(&env, "B"), Some("2".to_string()));
    assert_eq!(lookup_var(&env, "C"), None);
}

fn names(v: &[&str]) -> Vec<String> {
    v.iter().map(|s| s.to_string()).collect()
}

#[test]
fn no_match_and_no_default_does_nothing() {
    let c = Config { wallpapers_dir: "/w".to_string(), default: None };
    let a = c.action_for(&names(&["Blur.png"]), "Radiohead");
    assert!(matches!(a, Action::Nothing));
}

#[test]
fn no_match_applies_default() {
    let c = Config { wallpapers_dir: "/w".to_string(), default: Some("/w/default.png".to_string()) };
    let a = c.action_for(&names(&["Blur.png"]), "Radiohead");
    match a {
        Action::ApplyDefault(p) => assert_eq!(p, "/w/default.png"),
        _ => panic!("expected the default"),
    }
}

#[test]
fn match_takes_precedence_over_default() {
    let c = Config { wallpapers_dir: "/w".to_string(), default: Some("/w/default.png".to_string()) };
    let a = c.action_for(&names(&["default.png", "Blur.png", "radiohead.jpg"]), "Radiohead");
    assert!(matches!(a, Action::ApplyMatch(2)));
}

#[test]
fn tilde_before_backslash_is_kept_on_unix() {
    let c = Config::from_options(Some("~\\w".to_string()), None, Some("/home/u".to_string()), &vars(&[]));
    assert_eq!(c.wallpapers_dir, "~\\w");
}
