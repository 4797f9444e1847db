use hyprconfig::hyprconf::{
    bind_arguments, validate_variable_name, validate_wallpaper_path, config_base_dir,
    list_config_files, matugen_arguments, parse_bind, parse_binds, sort_variables,
    variable_name_verdict, wallpaper_block, wallpaper_entry, wallpaper_replacement, Variable,
};
use hyprconfig::prefs::{
    default_preferences_text, preferences_from_values, read_preferences, update_preferences_text,
};

#[test]
fn bind_fields_split() {
    let k = parse_bind("SUPER_SHIFT, Q, exec, kitty, --hold").unwrap();
    assert_eq!(k.modifiers, vec!["SUPER".to_string(), "SHIFT".to_string()]);
    assert_eq!(k.key, "Q");
    assert_eq!(k.dispatcher, "exec");
    assert_eq!(k.params, "kitty, --hold");
    let k = parse_bind(", XF86AudioMute, exec").unwrap();
    assert!(k.modifiers.is_empty());
    assert_eq!(k.params, "");
    assert!(parse_bind("SUPER, Q").is_none());
}

#[test]
fn binds_keep_order() {
    let binds = vec!["SUPER, Q, killactive".to_string(), "bad".to_string(), "ALT CTRL, T, exec, foot".to_string()];
    let ks = parse_binds(&binds);
    assert_eq!(ks.len(), 2);
    assert_eq!(ks[1].modifiers, vec!["ALT".to_string(), "CTRL".to_string()]);
}

#[test]
fn bind_argument_text() {
    let mods = vec!["SUPER".to_string(), "SHIFT".to_string()];
    assert_eq!(bind_arguments(&mods, " Q ", "exec ", " kitty"), Ok("SUPER SHIFT, Q, exec, kitty".to_string()));
    assert_eq!(bind_arguments(&Vec::new(), "Q", "killactive", ""), Ok("Q, killactive, ".to_string()));
    assert_eq!(bind_arguments(&mods, "  ", "exec", ""), Err("Key is required".to_string()));
    assert_eq!(bind_arguments(&mods, "Q", "", ""), Err("Dispatcher is required".to_string()));
}

#[test]
fn variable_names() {
    assert_eq!(validate_variable_name("my_var1"), Ok(()));
    assert_eq!(validate_variable_name("größe"), Ok(()));
    assert_eq!(
        validate_variable_name("a-b"),
        Err("Variable name must contain only letters, numbers, and underscores".to_string())
    );
    assert_eq!(validate_variable_name(""), Err("Variable name cannot be empty".to_string()));
    assert_eq!(variable_name_verdict(true, false), Ok(()));
    assert!(variable_name_verdict(false, true).unwrap_err().starts_with("Variable name must"));
}

#[test]
fn variables_by_name() {
    let v = |n: &str| Variable { name: n.to_string(), value: String::new() };
    let sorted = sort_variables(vec![v("terminal"), v("browser"), v("Menu"), v("editor")]);
    let names: Vec<&str> = sorted.iter().map(|x| x.name.as_str()).collect();
    assert_eq!(names, vec!["Menu", "browser", "editor", "terminal"]);
}

#[test]
fn wallpaper_entries() {
    let w = wallpaper_entry(None, Some("/img/a.png".to_string()), None).unwrap();
    assert_eq!((w.monitor.as_str(), w.path.as_str(), w.fit_mode.as_str()), ("", "/img/a.png", "cover"));
    let w = wallpaper_entry(Some("DP-1".to_string()), Some("/b.jpg".to_string()), Some("contain".to_string())).unwrap();
    assert_eq!(w.fit_mode, "contain");
    assert!(wallpaper_entry(Some("DP-1".to_string()), None, None).is_none());
    assert!(wallpaper_entry(None, Some(String::new()), None).is_none());
}

#[test]
fn wallpaper_texts() {
    assert_eq!(
        wallpaper_block(" DP-1 ", " /img/a.png ", None),
        Ok("\nwallpaper {\n    monitor = DP-1\n    path = /img/a.png\n    fit_mode = cover\n}\n".to_string())
    );
    assert_eq!(wallpaper_block("", "  ", None), Err("Path cannot be empty".to_string()));
    let (file, cmd) = wallpaper_replacement("eDP-1", "/w.png", Some("fill")).unwrap();
    assert_eq!(file, "wallpaper {\n    monitor = eDP-1\n    path = /w.png\n    fit_mode = fill\n}\n");
    assert_eq!(cmd, "hyprctl hyprpaper wallpaper 'eDP-1, /w.png, fill'");
    assert!(wallpaper_replacement("eDP-1", "", None).is_err());
    assert_eq!(validate_wallpaper_path("x"), Ok(()));
    assert_eq!(validate_wallpaper_path(" "), Err("Path cannot be empty".to_string()));
}

#[test]
fn matugen_argument_list() {
    assert_eq!(
        matugen_arguments("/img.png", true, "scheme-content"),
        vec!["image", "/img.png", "--mode", "light", "--type", "scheme-content"]
            .into_iter()
            .map(String::from)
            .collect::<Vec<_>>()
    );
    assert_eq!(matugen_arguments("/i", false, "t").len(), 4);
}

#[test]
fn config_files_filter() {
    let files = vec!["/h/hypr/hyprland.conf".to_string(), "/h/hypr/notes.txt".to_string(), "/h/hypr/.conf".to_string(), "conf".to_string()];
    assert_eq!(list_config_files(files), vec!["/h/hypr/hyprland.conf".to_string(), "/h/hypr/.conf".to_string()]);
}

#[test]
fn config_base_folder() {
    assert_eq!(config_base_dir(Some("/xdg"), Some("/home/u")), Ok("/xdg".to_string()));
    assert_eq!(config_base_dir(None, Some("/home/u")), Ok("/home/u/.config".to_string()));
    assert_eq!(config_base_dir(None, Some("/home/u/")), Ok("/home/u/.config".to_string()));
    assert_eq!(config_base_dir(None, None), Err("Could not determine home directory".to_string()));
}

#[test]
fn preferences_reading() {
    let p = read_preferences(&default_preferences_text()).unwrap();
    assert!(!p.matugen.enable && !p.matugen.light_mode);
    assert_eq!(p.matugen.generator_type, "scheme-tonal-spot");
    let p = read_preferences("[matugen]\nenable = true\nlight_mode = \"yes\"\ngenerator_type = \"scheme-fruit-salad\"\n").unwrap();
    assert!(p.matugen.enable);
    assert!(!p.matugen.light_mode);
    assert_eq!(p.matugen.generator_type, "scheme-fruit-salad");
    let p = read_preferences("").unwrap();
    assert_eq!(p.matugen.generator_type, "scheme-tonal-spot");
    let e = read_preferences("[matugen\nenable = ").unwrap_err();
    assert!(e.starts_with("Failed to parse TOML: "));
    let p = preferences_from_values(Some(true), None, None);
    assert!(p.matugen.enable && !p.matugen.light_mode);
}

#[test]
fn preferences_update_round_trip() {
    let text = "# mine\ntheme = \"dark\"\n\n[matugen]\nenable = false\n";
    let updated = update_preferences_text(text, true, true, "scheme-content").unwrap();
    assert!(updated.contains("# mine"));
    assert!(updated.contains("theme = \"dark\""));
    let p = read_preferences(&updated).unwrap();
    assert!(p.matugen.enable && p.matugen.light_mode);
    assert_eq!(p.matugen.generator_type, "scheme-content");
}

#[test]
fn preferences_update_adds_or_replaces_table() {
    let updated = update_preferences_text("", false, true, "scheme-tonal-spot").unwrap();
    let p = read_preferences(&updated).unwrap();
    assert!(!p.matugen.enable && p.matugen.light_mode);
    let updated = update_preferences_text("matugen = 3\n", true, false, "x").unwrap();
    let p = read_preferences(&updated).unwrap();
    assert!(p.matugen.enable);
    assert_eq!(p.matugen.generator_type, "x");
    let e = update_preferences_text("[matugen", true, false, "x").unwrap_err();
    assert!(e.starts_with("Failed to parse TOML: "));
}

#[test]
fn written_binding_reads_back() {
    let mods = vec!["SUPER".to_string(), "SHIFT".to_string()];
    let text = bind_arguments(&mods, " Return ", "exec", "kitty --single-instance").unwrap();
    let k = parse_bind(&text).unwrap();
    assert_eq!(k.modifiers, mods);
    assert_eq!(k.key, "Return");
    assert_eq!(k.dispatcher, "exec");
    assert_eq!(k.params, "kitty --single-instance");
}
