use argon40::config::{
    OledConfig, FAN_CONFIG_PATH, OLED_CONFIG_PATH, RTC_CONFIG_PATH,
};
use argon40::ctl::{
    confirm, plan_installation, relative_path, removed_paths, InstallStep, Installed,
};
use argon40::schedule::parse_schedule_file;

const NOTHING: Installed = Installed {
    fan_config: false,
    oled_config: false,
    rtc_config: false,
    link: false,
};

#[test]
fn what_is_not_confirmed_is_refused() {
    assert!(confirm(true, "uninstall Argon40").is_ok());
    assert_eq!(
        confirm(false, "uninstall Argon40").unwrap_err(),
        "refusing to uninstall Argon40; repeat with --yes after checking hardware and recovery access"
    );
}

#[test]
fn paths_lose_their_leading_slashes() {
    assert_eq!(relative_path("/etc/argon/oled"), "etc/argon/oled");
    assert_eq!(relative_path("//etc"), "etc");
    assert_eq!(relative_path("etc/"), "etc/");
    assert_eq!(relative_path("/"), "");
}

#[test]
fn a_first_installation_writes_everything() {
    let steps = plan_installation(NOTHING, true, true);
    assert_eq!(steps.len(), 12);
    assert_eq!(
        steps[0],
        InstallStep::Program { name: "argon40d", destination: "/usr/local/sbin/argon40d" }
    );
    assert_eq!(
        steps[5],
        InstallStep::Configuration {
            path: FAN_CONFIG_PATH,
            contents: "# temperature C = fan percent\n55=10\n60=55\n65=100\n".to_owned(),
        }
    );
    match &steps[6] {
        InstallStep::Configuration { path, contents } => {
            assert_eq!(*path, OLED_CONFIG_PATH);
            assert_eq!(OledConfig::parse(contents).unwrap(), OledConfig::default());
        }
        other => panic!("{other:?}"),
    }
    match &steps[7] {
        InstallStep::Configuration { path, contents } => {
            assert_eq!(*path, RTC_CONFIG_PATH);
            assert!(parse_schedule_file(contents).unwrap().is_empty());
        }
        other => panic!("{other:?}"),
    }
    assert_eq!(steps[10..], [InstallStep::ReloadUnits, InstallStep::EnableService]);
}

#[test]
fn what_is_there_is_left_alone() {
    let everything = Installed { fan_config: true, oled_config: true, rtc_config: true, link: true };
    let steps = plan_installation(everything, false, true);
    assert_eq!(steps.len(), 6);
    assert!(!steps.iter().any(|step| matches!(step, InstallStep::Configuration { .. })));
    assert_eq!(steps[5], InstallStep::Assets { directory: "/etc/argon/oled" });
    let staged = plan_installation(NOTHING, false, true);
    assert!(!staged.contains(&InstallStep::ReloadUnits));
    assert!(!staged.contains(&InstallStep::EnableService));
    let quiet = plan_installation(NOTHING, true, false);
    assert_eq!(quiet.last(), Some(&InstallStep::ReloadUnits));
}

#[test]
fn removal_keeps_the_configuration() {
    let paths = removed_paths();
    for path in [FAN_CONFIG_PATH, OLED_CONFIG_PATH, RTC_CONFIG_PATH] {
        assert!(!paths.contains(&path));
    }
    for step in plan_installation(NOTHING, true, true) {
        match step {
            InstallStep::Program { destination, .. }
            | InstallStep::Unit { destination }
            | InstallStep::Hook { destination, .. } => assert!(paths.contains(&destination)),
            InstallStep::Link { path, .. } => assert!(paths.contains(&path)),
            _ => {}
        }
    }
}
