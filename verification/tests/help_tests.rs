use ip_calculator::help::CommandHelp;

#[test]
fn catalogue_lists_all_commands() {
    let all = CommandHelp::get_all();
    assert_eq!(all.len(), 8);
    let names: Vec<&str> = all.iter().map(|c| c.name).collect();
    assert_eq!(
        names,
        vec![
            "display",
            "subnets",
            "get-subnet",
            "same-subnet",
            "check-ip",
            "check-mask",
            "find-range",
            "help"
        ]
    );
}

#[test]
fn find_by_name() {
    let c = CommandHelp::find_by_name_or_alias("subnets").unwrap();
    assert_eq!(c.name, "subnets");
    let c = CommandHelp::find_by_name_or_alias("find-range").unwrap();
    assert_eq!(c.name, "find-range");
}

#[test]
fn find_by_alias() {
    let c = CommandHelp::find_by_name_or_alias("-fr").unwrap();
    assert_eq!(c.name, "find-range");
    let c = CommandHelp::find_by_name_or_alias("--help").unwrap();
    assert_eq!(c.name, "help");
    let c = CommandHelp::find_by_name_or_alias("-cmask").unwrap();
    assert_eq!(c.name, "check-mask");
}

#[test]
fn empty_alias_names_the_display_command() {
    let c = CommandHelp::find_by_name_or_alias("").unwrap();
    assert_eq!(c.name, "display");
}

#[test]
fn unknown_name_finds_nothing() {
    assert!(CommandHelp::find_by_name_or_alias("no-such-command").is_none());
}
