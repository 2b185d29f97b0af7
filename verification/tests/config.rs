use argon40::config::{
    fan_config_text, temporary_name, OledChange, OledConfig, OledConfigFault, OledPage,
};

#[test]
fn oled_parser_is_data_not_shell() {
    let config = OledConfig::parse(
        "enabled=N\nswitchduration=30\nscreensaver=0\nscreenlist=\"clock cpu temp\"\n",
    )
    .unwrap();
    assert!(!config.enabled);
    assert_eq!(config.switch_seconds, 30);
    assert_eq!(config.screensaver_seconds, None);
    assert_eq!(
        config.pages,
        vec![OledPage::Clock, OledPage::Cpu, OledPage::Temperature]
    );
    assert!(OledConfig::parse("enabled=$(touch /tmp/nope)").is_err());
}

#[test]
fn oled_round_trip() {
    let original = OledConfig::default();
    assert_eq!(OledConfig::parse(&original.serialize()).unwrap(), original);
}

#[test]
fn oled_configuration_is_written_line_by_line() {
    let config = OledConfig {
        enabled: false,
        switch_seconds: 15,
        screensaver_seconds: None,
        pages: vec![OledPage::Raid, OledPage::Ip],
    };
    assert_eq!(
        config.serialize(),
        "#\n# Argon OLED Configuration\n#\nenabled=N\nswitchduration=15\nscreensaver=0\nscreenlist=\"raid ip\"\n"
    );
    assert_eq!(OledConfig::parse(&config.serialize()).unwrap(), config);
}

#[test]
fn faulty_lines_are_named() {
    let fault = |text: &str| {
        let error = OledConfig::parse(text).unwrap_err();
        (error.line, error.fault)
    };
    assert_eq!(fault("# fine\nenabled"), (2, OledConfigFault::MissingEquals));
    assert_eq!(fault("enabled=yes"), (1, OledConfigFault::Enabled));
    assert_eq!(fault("switchduration=-1"), (1, OledConfigFault::SwitchDuration));
    assert_eq!(fault("\n\nscreensaver=soon"), (3, OledConfigFault::Screensaver));
    assert_eq!(
        fault("screenlist=\"clock disk\""),
        (1, OledConfigFault::UnknownPage { name: "disk".to_owned() })
    );
    assert_eq!(
        fault("brightness=3"),
        (1, OledConfigFault::UnknownKey { key: "brightness".to_owned() })
    );
}

#[test]
fn every_page_has_its_name() {
    for (page, name) in [
        (OledPage::Clock, "clock"),
        (OledPage::Cpu, "cpu"),
        (OledPage::Storage, "storage"),
        (OledPage::Raid, "raid"),
        (OledPage::Ram, "ram"),
        (OledPage::Temperature, "temp"),
        (OledPage::Ip, "ip"),
    ] {
        assert_eq!(page.as_str(), name);
        assert_eq!(OledPage::parse(name), Some(page));
    }
    assert_eq!(OledPage::parse("Clock"), None);
}

#[test]
fn changes_leave_the_rest_alone() {
    let change = OledChange {
        enabled: None,
        switch_seconds: Some(30),
        screensaver_seconds: Some(0),
        pages: Some(vec!["cpu".to_owned(), "temp".to_owned()]),
    };
    let config = OledConfig::default().change(&change).unwrap();
    assert!(config.enabled);
    assert_eq!(config.switch_seconds, 30);
    assert_eq!(config.screensaver_seconds, None);
    assert_eq!(config.pages, vec![OledPage::Cpu, OledPage::Temperature]);
    let nothing = OledChange {
        enabled: None,
        switch_seconds: None,
        screensaver_seconds: None,
        pages: None,
    };
    assert_eq!(OledConfig::default().change(&nothing).unwrap(), OledConfig::default());
}

#[test]
fn an_unknown_page_stops_a_change() {
    let change = OledChange {
        enabled: Some(false),
        switch_seconds: None,
        screensaver_seconds: None,
        pages: Some(vec!["ip".to_owned(), "weather".to_owned(), "news".to_owned()]),
    };
    assert_eq!(OledConfig::default().change(&change).unwrap_err(), "weather");
}

#[test]
fn temporary_files_lie_beside_the_configuration() {
    assert_eq!(temporary_name(Some("argononed.conf")), ".argononed.conf.argon40.tmp");
    assert_eq!(temporary_name(None), ".config.argon40.tmp");
}

#[test]
fn fan_configuration_has_one_point_to_a_line() {
    assert_eq!(
        fan_config_text(&["55=10".to_owned(), "60=55".to_owned()]),
        "# Argon40 fan curve\n55=10\n60=55\n"
    );
}
