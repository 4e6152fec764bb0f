//! Configuration: migration, defaults and subtree coverage.
use rucerts::config::{
    covered_by, default_cross_days, default_path_len, default_root_days, falls_inside,
    parse_cross_cnf, yes, Config, ConfigSource, Signing,
};

#[test]
fn migrates_permitted_names_ignoring_index_gaps() {
    let cnf = "\
[nc]
permitted;DNS.1  = sberbank.ru
permitted;DNS.2  = sbrf.ru
permitted;DNS.6  = alfabank.ru
excluded;IP.0    = 0.0.0.0/0.0.0.0
excluded;email.0 = .
";
    assert_eq!(
        parse_cross_cnf(cnf),
        vec!["sberbank.ru", "sbrf.ru", "alfabank.ru"]
    );
}

#[test]
fn subtree_coverage_matches_rfc5280_semantics() {
    let cfg = Config::new(vec!["psbank.ru".to_owned()]);
    assert!(cfg.covers("psbank.ru"));
    assert!(cfg.covers("www.psbank.ru"));
    assert!(cfg.covers("a.b.psbank.ru"));
    // Suffix match must not be a substring match.
    assert!(!cfg.covers("notpsbank.ru"));
    assert!(!cfg.covers("psbank.ru.evil.com"));
}

#[test]
fn case_makes_no_difference() {
    let cfg = Config::new(vec!["psbank.ru".to_owned(), "VTB.ru".to_owned()]);
    assert!(cfg.covers("WWW.PSBANK.RU"));
    assert!(cfg.covers("Psbank.Ru"));
    assert!(cfg.covers("online.vtb.RU"));
    assert!(!cfg.covers("NOTPSBANK.RU"));
}

#[test]
fn migration_skips_empty_values_and_other_lines() {
    let cnf = "permitted;DNS.1 =\r\n  permitted;DNS.2=a.ru=b  \r\n# permitted;DNS.3 = c.ru\npermitted;DNS.4\n";
    assert_eq!(parse_cross_cnf(cnf), vec!["a.ru=b"]);
    assert!(parse_cross_cnf("").is_empty());
}

#[test]
fn a_migrated_configuration_excludes_everything_else() {
    let cfg = Config::from_cross_cnf("permitted;DNS.1 = a.ru\n");
    assert_eq!(cfg.constraints.permitted_dns, vec!["a.ru"]);
    assert!(cfg.constraints.exclude_ip);
    assert!(cfg.constraints.exclude_email);
    assert!(cfg.constraints.exclude_uri);
    assert_eq!(cfg.signing, Signing::default());
}

#[test]
fn defaults_are_those_of_the_constants() {
    assert!(yes());
    assert_eq!(default_cross_days(), 2000);
    assert_eq!(default_root_days(), 3650);
    assert_eq!(default_path_len(), 1);
    let signing = Signing::default();
    assert_eq!((signing.cross_days, signing.root_days, signing.path_len), (2000, 3650, 1));
}

#[test]
fn the_current_file_goes_before_the_older_ones() {
    assert_eq!(Config::load(true, true, true), Some(ConfigSource::Current));
    assert_eq!(Config::load(false, true, true), Some(ConfigSource::Renamed));
    assert_eq!(Config::load(false, false, true), Some(ConfigSource::Legacy));
    assert_eq!(Config::load(false, false, false), None);
}

#[test]
fn older_files_are_migrated_and_only_the_renamed_one_is_removed() {
    assert_eq!(ConfigSource::Current.file_name(), "rucerts.toml");
    assert_eq!(ConfigSource::Renamed.file_name(), "certsru.toml");
    assert_eq!(ConfigSource::Legacy.file_name(), "cross.cnf");
    assert!(!ConfigSource::Current.is_migrated());
    assert!(ConfigSource::Renamed.is_migrated());
    assert!(ConfigSource::Legacy.is_migrated());
    assert!(!ConfigSource::Current.is_removed());
    assert!(ConfigSource::Renamed.is_removed());
    assert!(!ConfigSource::Legacy.is_removed());
}

#[test]
fn what_covers_a_name_covers_its_subdomains() {
    let domains = vec!["a.ru".to_owned(), "b.ru".to_owned()];
    assert!(covered_by(&domains, "b.ru"));
    assert!(covered_by(&domains, "x.b.ru"));
    assert!(covered_by(&domains, "y.x.b.ru"));
    assert!(!covered_by(&domains, "xb.ru"));
    assert!(!covered_by(&[].to_vec(), "b.ru"));
}

#[test]
fn subtrees_nest() {
    assert!(falls_inside("z.y.x", "y.x"));
    assert!(falls_inside("y.x", "x"));
    assert!(falls_inside("z.y.x", "x"));
    assert!(!falls_inside("x", "y.x"));
}

#[test]
fn only_the_permitted_names_change() {
    let cfg = Config::new(vec!["a.ru".to_owned()]);
    let narrowed = cfg.constraints.with_permitted(vec!["b.ru".to_owned()]);
    assert_eq!(narrowed.permitted_dns, vec!["b.ru"]);
    assert!(narrowed.exclude_ip && narrowed.exclude_email && narrowed.exclude_uri);
}
